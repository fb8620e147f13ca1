//! What the parser reads back of what the printer writes.
use vstd::prelude::*;
use crate::number::{NumberState, number_step, number_state_is_final, number_run, is_json_number};
use crate::print::spec::{
    escape, escaped, string_literal, hex_char, print_spec, size_spec,
    items_inline, entries_inline, entry_spec, spaces, items_expanded, entries_expanded,
    indent_chars, indent_unit,
};
use crate::value::{Value, JValue, values_view, entries_view};
use crate::object::Entry;
use crate::number::NumberBuf;
use super::{Context, Options};
use super::parser::parse_spec;
use super::document::str_input;
use super::grammar::{
    Input, PErr, Frag, ArrCont, ObjCont, is_ws, follows, is_control, simple_escape, hex_value, char_of,
};

verus! {

/// The escapes of `a + b` are those of `a`, then those of `b`.
proof fn lemma_escaped_add(a: Seq<char>, b: Seq<char>)
    ensures
        escaped(a + b) == escaped(a) + escaped(b),
    decreases b.len(),
{
    if b.len() == 0 {
        assert(a + b =~= a);
        assert(escaped(a) + escaped(b) =~= escaped(a));
    } else {
        lemma_escaped_add(a, b.drop_last());
        assert((a + b).drop_last() =~= a + b.drop_last());
        assert((a + b).last() == b.last());
    }
}

proof fn lemma_hex_char(d: u32)
    requires
        d < 16,
    ensures
        hex_value(hex_char(d)) == Some(d),
{
}

/// Reading the escape of `c` from `k` adds `c` to the string read so far.
proof fn lemma_escape_reads(inp: Input, k: int, acc: Seq<char>, c: char)
    requires
        0 <= k,
        k + escape(c).len() <= inp.len(),
        inp.chars.subrange(k, k + escape(c).len()) == escape(c),
    ensures
        inp.string(k, acc, None) == inp.string(k + escape(c).len(), acc.push(c), None),
{
    let e = escape(c);
    assert(inp.chars[k] == e[0]);
    if e.len() > 1 {
        assert(inp.chars[k + 1] == e[1]);
    }
    if (c as u32) <= 0x1f && c != '\u{0008}' && c != '\u{0009}' && c != '\u{000a}' && c
        != '\u{000c}' && c != '\u{000d}' {
        let cp = c as u32;
        let h = cp / 16;
        let l = cp % 16;
        assert(e == seq!['\\', 'u', '0', '0', hex_char(h), hex_char(l)]);
        assert(inp.chars[k + 2] == '0');
        assert(inp.chars[k + 3] == '0');
        assert(inp.chars[k + 4] == hex_char(h));
        assert(inp.chars[k + 5] == hex_char(l));
        lemma_hex_char(0);
        lemma_hex_char(h);
        lemma_hex_char(l);
        let a1 = (0u32 << 4u32) | 0u32;
        let a2 = (a1 << 4u32) | 0u32;
        let a3 = (a2 << 4u32) | h;
        let a4 = (a3 << 4u32) | l;
        assert(a4 == cp) by (bit_vector)
            requires
                a1 == (0u32 << 4u32) | 0u32,
                a2 == (a1 << 4u32) | 0u32,
                a3 == (a2 << 4u32) | h,
                a4 == (a3 << 4u32) | l,
                h == cp / 16,
                l == cp % 16,
                cp <= 0x1f,
        ;
        reveal_with_fuel(Input::hex, 5);
        assert(inp.hex(k + 2, 4, 0) == Ok::<u32, super::grammar::PErr>(cp));
        assert(char_of(cp) == Some(c));
        assert(inp.string_codepoint(k + 1, k + 6, acc, cp) == inp.string(k + 6, acc.push(c), None));
    } else if c == '\\' || c == '"' || c == '\u{0008}' || c == '\u{0009}' || c == '\u{000a}'
        || c == '\u{000c}' || c == '\u{000d}' {
        assert(simple_escape(e[1]) == Some(c));
        assert(inp.string_push(k + 2, acc, None, c) == inp.string(k + 2, acc.push(c), None));
    } else {
        assert(e == seq![c]);
        assert(!is_control(c));
        assert(inp.string_push(k + 1, acc, None, c) == inp.string(k + 1, acc.push(c), None));
    }
}

/// Reading the escapes of `s` from `k` adds `s` to the string read so far.
proof fn lemma_escaped_reads(inp: Input, k: int, acc: Seq<char>, s: Seq<char>)
    requires
        0 <= k,
        k + escaped(s).len() <= inp.len(),
        inp.chars.subrange(k, k + escaped(s).len()) == escaped(s),
    ensures
        inp.string(k, acc, None) == inp.string(k + escaped(s).len(), acc + s, None),
    decreases s.len(),
{
    if s.len() == 0 {
        assert(acc + s =~= acc);
    } else {
        let c = s[0];
        let rest = s.drop_first();
        assert(s =~= seq![c] + rest);
        lemma_escaped_add(seq![c], rest);
        assert(seq![c].drop_last() =~= Seq::<char>::empty());
        assert(seq![c].last() == c);
        assert(escaped(Seq::<char>::empty()) =~= Seq::<char>::empty());
        assert(escaped(seq![c]) == escaped(seq![c].drop_last()) + escape(seq![c].last()));
        assert(escaped(seq![c]) =~= escape(c));
        let n = escape(c).len() as int;
        let m = escaped(rest).len() as int;
        let es = escaped(s);
        assert(es == escape(c) + escaped(rest));
        assert(inp.chars.subrange(k, k + n + m) == es);
        assert(inp.chars.subrange(k, k + n) =~= es.subrange(0, n));
        assert(es.subrange(0, n) =~= escape(c));
        lemma_escape_reads(inp, k, acc, c);
        assert(inp.chars.subrange(k + n, k + n + m) =~= es.subrange(n, n + m));
        assert(es.subrange(n, n + m) =~= escaped(rest));
        lemma_escaped_reads(inp, k + n, acc.push(c), rest);
        assert(acc.push(c) + rest =~= acc + s);
    }
}

/// The string literal of `s`, read from its opening quote at `j`, gives `s`
/// and ends after its closing quote.
proof fn lemma_literal_reads(inp: Input, j: int, s: Seq<char>)
    requires
        0 <= j,
        j + string_literal(s).len() <= inp.len(),
        inp.chars.subrange(j, j + string_literal(s).len()) == string_literal(s),
    ensures
        inp.string(j + 1, Seq::empty(), None) == Ok::<(Seq<char>, int), super::grammar::PErr>(
            (s, j + string_literal(s).len()),
        ),
{
    let lit = string_literal(s);
    let m = escaped(s).len() as int;
    assert(inp.chars.subrange(j + 1, j + 1 + m) =~= lit.subrange(1, 1 + m));
    assert(lit.subrange(1, 1 + m) =~= escaped(s));
    lemma_escaped_reads(inp, j + 1, Seq::empty(), s);
    assert(Seq::<char>::empty() + s =~= s);
    assert(inp.chars[j + 1 + m] == lit[1 + m]);
}

/// What stands at `k`, after a value read in the context `ctx`, lets the
/// value end there: a character that may follow it, or the end of a stream
/// that does not fail.
pub open spec fn ends_value(inp: Input, k: int, ctx: Context) -> bool {
    &&& k < inp.len() ==> follows(ctx, inp.chars[k])
    &&& k >= inp.len() ==> !inp.stream_error
}

proof fn lemma_follows_stops_number(st: NumberState, ctx: Context, c: char)
    requires
        follows(ctx, c),
    ensures
        number_step(st, c) is None,
{
}

/// The number automaton, run from `k` in state `st` over the characters
/// `s`, ends after them where they take it to an accepting state and what
/// follows lets the number end.
proof fn lemma_number_reads(inp: Input, k: int, st: NumberState, s: Seq<char>, ctx: Context)
    requires
        0 <= k,
        k + s.len() <= inp.len(),
        inp.chars.subrange(k, k + s.len()) == s,
        number_run(st, s) matches Some(f) && number_state_is_final(f),
        ends_value(inp, k + s.len(), ctx),
    ensures
        inp.number(k, st, ctx) == Ok::<int, super::grammar::PErr>(k + s.len()),
    decreases s.len(),
{
    if s.len() == 0 {
        if k < inp.len() {
            lemma_follows_stops_number(st, ctx, inp.chars[k]);
        }
    } else {
        assert(inp.chars[k] == s[0]);
        let next = number_step(st, s[0])->Some_0;
        assert(inp.chars.subrange(k + 1, k + s.len()) =~= s.drop_first());
        lemma_number_reads(inp, k + 1, next, s.drop_first(), ctx);
    }
}

/// The word `w[t..]` at `i + t` is read whole.
proof fn lemma_word_reads(inp: Input, i: int, w: Seq<char>, t: int)
    requires
        0 <= i,
        0 <= t <= w.len(),
        i + w.len() <= inp.len(),
        inp.chars.subrange(i, i + w.len()) == w,
    ensures
        inp.literal(i, w, t) == Ok::<int, super::grammar::PErr>(i + w.len()),
    decreases w.len() - t,
{
    if t < w.len() {
        assert(inp.chars[i + t] == w[t]);
        lemma_word_reads(inp, i, w, t + 1);
    }
}

/// Every number of `v` is in lexical JSON form.
pub open spec fn numbers_valid(v: JValue) -> bool
    decreases v, 1int,
{
    match v {
        JValue::Number(n) => is_json_number(n),
        JValue::Array(items) => items_valid(items),
        JValue::Object(entries) => entries_valid(entries),
        _ => true,
    }
}

/// Every number of the items `items` is in lexical JSON form.
pub open spec fn items_valid(items: Seq<JValue>) -> bool
    decreases items, 0int,
{
    items.len() > 0 ==> items_valid(items.drop_last()) && numbers_valid(items[items.len() - 1])
}

/// Every number of the values of `entries` is in lexical JSON form.
pub open spec fn entries_valid(entries: Seq<(Seq<char>, JValue)>) -> bool
    decreases entries, 0int,
{
    entries.len() > 0 ==> entries_valid(entries.drop_last()) && numbers_valid(
        entries[entries.len() - 1].1,
    )
}

proof fn lemma_items_valid(items: Seq<JValue>, j: int)
    requires
        items_valid(items),
        0 <= j < items.len(),
    ensures
        numbers_valid(items[j]),
    decreases items.len(),
{
    if j < items.len() - 1 {
        lemma_items_valid(items.drop_last(), j);
    }
}

proof fn lemma_entries_valid(entries: Seq<(Seq<char>, JValue)>, j: int)
    requires
        entries_valid(entries),
        0 <= j < entries.len(),
    ensures
        numbers_valid(entries[j].1),
    decreases entries.len(),
{
    if j < entries.len() - 1 {
        lemma_entries_valid(entries.drop_last(), j);
    }
}

/// The items printed on one line: the first, then a comma and the others.
proof fn lemma_items_inline_front(s: Seq<JValue>, o: crate::print::Options, ind: nat)
    requires
        s.len() > 0,
    ensures
        items_inline(s, o, ind) == print_spec(s[0], o, ind) + (if s.len() > 1 {
            spaces(o.array_before_comma as nat) + seq![','] + spaces(o.array_after_comma as nat)
                + items_inline(s.drop_first(), o, ind)
        } else {
            Seq::empty()
        }),
    decreases s.len(),
{
    let sep = spaces(o.array_before_comma as nat) + seq![','] + spaces(o.array_after_comma as nat);
    if s.len() == 1 {
        assert(items_inline(s.drop_last(), o, ind) =~= Seq::<char>::empty());
        assert(items_inline(s, o, ind) =~= print_spec(s[0], o, ind));
        assert(print_spec(s[0], o, ind) + Seq::<char>::empty() =~= print_spec(s[0], o, ind));
    } else {
        let d = s.drop_last();
        lemma_items_inline_front(d, o, ind);
        let f = s.drop_first();
        assert(d[0] == s[0]);
        if s.len() == 2 {
            assert(f.drop_last() =~= Seq::<JValue>::empty());
            assert(items_inline(f.drop_last(), o, ind) =~= Seq::<char>::empty());
            assert(items_inline(f, o, ind) =~= print_spec(f[0], o, ind));
            assert(items_inline(d, o, ind) =~= print_spec(s[0], o, ind));
            assert(items_inline(s, o, ind) =~= print_spec(s[0], o, ind) + sep + print_spec(s[1], o, ind));
            assert(f[0] == s[1]);
        } else {
            assert(d.drop_first() =~= f.drop_last());
            assert(f[f.len() - 1] == s[s.len() - 1]);
            assert(items_inline(f, o, ind) == items_inline(f.drop_last(), o, ind) + sep + print_spec(
                f[f.len() - 1],
                o,
                ind,
            ));
            assert(items_inline(s, o, ind) =~= print_spec(s[0], o, ind) + (sep + items_inline(
                f,
                o,
                ind,
            )));
        }
    }
}

/// The entries printed on one line: the first, then a comma and the others.
proof fn lemma_entries_inline_front(
    s: Seq<(Seq<char>, JValue)>,
    o: crate::print::Options,
    ind: nat,
)
    requires
        s.len() > 0,
    ensures
        entries_inline(s, o, ind) == entry_spec(s[0].0, s[0].1, o, ind) + (if s.len() > 1 {
            spaces(o.object_before_comma as nat) + seq![','] + spaces(o.object_after_comma as nat)
                + entries_inline(s.drop_first(), o, ind)
        } else {
            Seq::empty()
        }),
    decreases s.len(),
{
    let sep = spaces(o.object_before_comma as nat) + seq![','] + spaces(
        o.object_after_comma as nat,
    );
    if s.len() == 1 {
        assert(entries_inline(s.drop_last(), o, ind) =~= Seq::<char>::empty());
        assert(entries_inline(s, o, ind) =~= entry_spec(s[0].0, s[0].1, o, ind));
        assert(entry_spec(s[0].0, s[0].1, o, ind) + Seq::<char>::empty() =~= entry_spec(
            s[0].0,
            s[0].1,
            o,
            ind,
        ));
    } else {
        let d = s.drop_last();
        lemma_entries_inline_front(d, o, ind);
        let f = s.drop_first();
        assert(d[0] == s[0]);
        if s.len() == 2 {
            assert(f.drop_last() =~= Seq::<(Seq<char>, JValue)>::empty());
            assert(entries_inline(f.drop_last(), o, ind) =~= Seq::<char>::empty());
            assert(entries_inline(f, o, ind) =~= entry_spec(f[0].0, f[0].1, o, ind));
            assert(entries_inline(d, o, ind) =~= entry_spec(s[0].0, s[0].1, o, ind));
            assert(f[0] == s[1]);
            assert(entries_inline(s, o, ind) =~= entry_spec(s[0].0, s[0].1, o, ind) + sep
                + entry_spec(s[1].0, s[1].1, o, ind));
        } else {
            assert(d.drop_first() =~= f.drop_last());
            assert(f[f.len() - 1] == s[s.len() - 1]);
            assert(entries_inline(f, o, ind) == entries_inline(f.drop_last(), o, ind) + sep
                + entry_spec(f[f.len() - 1].0, f[f.len() - 1].1, o, ind));
            assert(entries_inline(s, o, ind) =~= entry_spec(s[0].0, s[0].1, o, ind) + (sep
                + entries_inline(f, o, ind)));
        }
    }
}

/// Every character of `w` is a whitespace.
pub open spec fn all_ws(w: Seq<char>) -> bool {
    forall|t: int| 0 <= t < w.len() ==> #[trigger] is_ws(w[t])
}

proof fn lemma_all_ws_add(a: Seq<char>, b: Seq<char>)
    requires
        all_ws(a),
        all_ws(b),
    ensures
        all_ws(a + b),
{
    assert forall|t: int| 0 <= t < (a + b).len() implies #[trigger] is_ws((a + b)[t]) by {
        if t < a.len() {
            assert((a + b)[t] == a[t]);
        } else {
            assert((a + b)[t] == b[t - a.len()]);
        }
    }
}

proof fn lemma_indent_ws(indent: crate::print::Indent, n: nat)
    ensures
        all_ws(indent_chars(indent, n)),
        all_ws(spaces(n)),
        all_ws(seq!['\n'] + indent_chars(indent, n)),
    decreases n,
{
    assert(all_ws(seq!['\n']));
    if n > 0 {
        lemma_indent_ws(indent, (n - 1) as nat);
        assert(all_ws(indent_unit(indent)));
        lemma_all_ws_add(indent_chars(indent, (n - 1) as nat), indent_unit(indent));
    }
    lemma_all_ws_add(seq!['\n'], indent_chars(indent, n));
}

/// Whitespaces `w` at `k` are skipped.
proof fn lemma_skip_gap(inp: Input, k: int, w: Seq<char>)
    requires
        0 <= k,
        k + w.len() <= inp.len(),
        inp.chars.subrange(k, k + w.len()) == w,
        all_ws(w),
    ensures
        inp.skip_ws(k) == inp.skip_ws(k + w.len()),
    decreases w.len(),
{
    if w.len() > 0 {
        assert(inp.chars[k] == w[0]);
        assert(is_ws(w[0]));
        assert(inp.chars.subrange(k + 1, k + w.len()) =~= w.drop_first());
        lemma_skip_gap(inp, k + 1, w.drop_first());
    }
}

/// The items of an expanded array: the first on its line, then a comma,
/// a new line and the others.
proof fn lemma_items_expanded_front(s: Seq<JValue>, o: crate::print::Options, ind: nat)
    requires
        s.len() > 0,
    ensures
        items_expanded(s, o, ind) == indent_chars(o.indent, ind) + print_spec(s[0], o, ind) + (if s.len()
            > 1 {
            spaces(o.array_before_comma as nat) + seq![',', '\n'] + items_expanded(
                s.drop_first(),
                o,
                ind,
            )
        } else {
            Seq::empty()
        }),
    decreases s.len(),
{
    let sep = spaces(o.array_before_comma as nat) + seq![',', '\n'];
    let ic = indent_chars(o.indent, ind);
    if s.len() == 1 {
        assert(items_expanded(s.drop_last(), o, ind) =~= Seq::<char>::empty());
        assert(items_expanded(s, o, ind) =~= ic + print_spec(s[0], o, ind));
        assert(ic + print_spec(s[0], o, ind) + Seq::<char>::empty() =~= ic + print_spec(s[0], o, ind));
    } else {
        let d = s.drop_last();
        lemma_items_expanded_front(d, o, ind);
        let f = s.drop_first();
        assert(d[0] == s[0]);
        if s.len() == 2 {
            assert(f.drop_last() =~= Seq::<JValue>::empty());
            assert(items_expanded(f.drop_last(), o, ind) =~= Seq::<char>::empty());
            assert(items_expanded(f, o, ind) =~= ic + print_spec(f[0], o, ind));
            assert(items_expanded(d, o, ind) =~= ic + print_spec(s[0], o, ind));
            assert(f[0] == s[1]);
            assert(items_expanded(s, o, ind) =~= ic + print_spec(s[0], o, ind) + sep + (ic
                + print_spec(s[1], o, ind)));
        } else {
            assert(d.drop_first() =~= f.drop_last());
            assert(f[f.len() - 1] == s[s.len() - 1]);
            assert(items_expanded(f, o, ind) == items_expanded(f.drop_last(), o, ind) + sep + ic
                + print_spec(f[f.len() - 1], o, ind));
            assert(items_expanded(s, o, ind) =~= ic + print_spec(s[0], o, ind) + (sep
                + items_expanded(f, o, ind)));
        }
    }
}

/// The entries of an expanded object: the first on its line, then a comma,
/// a new line and the others.
proof fn lemma_entries_expanded_front(
    s: Seq<(Seq<char>, JValue)>,
    o: crate::print::Options,
    ind: nat,
)
    requires
        s.len() > 0,
    ensures
        entries_expanded(s, o, ind) == indent_chars(o.indent, ind) + entry_spec(s[0].0, s[0].1, o, ind)
            + (if s.len() > 1 {
            spaces(o.object_before_comma as nat) + seq![',', '\n'] + entries_expanded(
                s.drop_first(),
                o,
                ind,
            )
        } else {
            Seq::empty()
        }),
    decreases s.len(),
{
    let sep = spaces(o.object_before_comma as nat) + seq![',', '\n'];
    let ic = indent_chars(o.indent, ind);
    if s.len() == 1 {
        assert(entries_expanded(s.drop_last(), o, ind) =~= Seq::<char>::empty());
        assert(entries_expanded(s, o, ind) =~= ic + entry_spec(s[0].0, s[0].1, o, ind));
        assert(ic + entry_spec(s[0].0, s[0].1, o, ind) + Seq::<char>::empty() =~= ic + entry_spec(
            s[0].0,
            s[0].1,
            o,
            ind,
        ));
    } else {
        let d = s.drop_last();
        lemma_entries_expanded_front(d, o, ind);
        let f = s.drop_first();
        assert(d[0] == s[0]);
        if s.len() == 2 {
            assert(f.drop_last() =~= Seq::<(Seq<char>, JValue)>::empty());
            assert(entries_expanded(f.drop_last(), o, ind) =~= Seq::<char>::empty());
            assert(entries_expanded(f, o, ind) =~= ic + entry_spec(f[0].0, f[0].1, o, ind));
            assert(entries_expanded(d, o, ind) =~= ic + entry_spec(s[0].0, s[0].1, o, ind));
            assert(f[0] == s[1]);
            assert(entries_expanded(s, o, ind) =~= ic + entry_spec(s[0].0, s[0].1, o, ind) + sep
                + (ic + entry_spec(s[1].0, s[1].1, o, ind)));
        } else {
            assert(d.drop_first() =~= f.drop_last());
            assert(f[f.len() - 1] == s[s.len() - 1]);
            assert(entries_expanded(f, o, ind) == entries_expanded(f.drop_last(), o, ind) + sep + ic
                + entry_spec(f[f.len() - 1].0, f[f.len() - 1].1, o, ind));
            assert(entries_expanded(s, o, ind) =~= ic + entry_spec(s[0].0, s[0].1, o, ind) + (sep
                + entries_expanded(f, o, ind)));
        }
    }
}

/// The text of the items of an array from the one at `m`: each item, with
/// the gap `gb` before each comma and `ga` after it, then `ge` and `]`.
spec fn arr_rest(
    items: Seq<JValue>,
    m: int,
    o: crate::print::Options,
    ind: nat,
    gb: Seq<char>,
    ga: Seq<char>,
    ge: Seq<char>,
) -> Seq<char>
    decreases items.len() - m,
{
    if 0 <= m < items.len() {
        print_spec(items[m], o, ind) + (if m + 1 < items.len() {
            gb + seq![','] + ga + arr_rest(items, m + 1, o, ind, gb, ga, ge)
        } else {
            ge + seq![']']
        })
    } else {
        Seq::empty()
    }
}

proof fn lemma_arr_rest_inline(items: Seq<JValue>, m: int, o: crate::print::Options, ind: nat)
    requires
        0 <= m < items.len(),
    ensures
        items_inline(items.skip(m), o, ind) + spaces(o.array_end as nat) + seq![']'] == arr_rest(
            items,
            m,
            o,
            ind,
            spaces(o.array_before_comma as nat),
            spaces(o.array_after_comma as nat),
            spaces(o.array_end as nat),
        ),
    decreases items.len() - m,
{
    let r = items.skip(m);
    lemma_items_inline_front(r, o, ind);
    assert(r[0] == items[m]);
    if m + 1 < items.len() {
        assert(r.drop_first() =~= items.skip(m + 1));
        lemma_arr_rest_inline(items, m + 1, o, ind);
    }
    assert(items_inline(r, o, ind) + spaces(o.array_end as nat) + seq![']'] =~= arr_rest(
        items,
        m,
        o,
        ind,
        spaces(o.array_before_comma as nat),
        spaces(o.array_after_comma as nat),
        spaces(o.array_end as nat),
    ));
}

#[verifier::rlimit(60)]
#[verifier::spinoff_prover]
proof fn lemma_arr_rest_expanded(
    items: Seq<JValue>,
    m: int,
    o: crate::print::Options,
    ind: nat,
    ge: Seq<char>,
)
    requires
        0 <= m < items.len(),
    ensures
        seq!['\n'] + items_expanded(items.skip(m), o, ind) + ge + seq![']'] == seq!['\n']
            + indent_chars(o.indent, ind) + arr_rest(
            items,
            m,
            o,
            ind,
            spaces(o.array_before_comma as nat),
            seq!['\n'] + indent_chars(o.indent, ind),
            ge,
        ),
    decreases items.len() - m,
{
    let r = items.skip(m);
    let ic = indent_chars(o.indent, ind);
    let sb = spaces(o.array_before_comma as nat);
    let ga = seq!['\n'] + ic;
    let p = print_spec(items[m], o, ind);
    lemma_items_expanded_front(r, o, ind);
    assert(r[0] == items[m]);
    if m + 1 < items.len() {
        assert(r.drop_first() =~= items.skip(m + 1));
        lemma_arr_rest_expanded(items, m + 1, o, ind, ge);
        let x = items_expanded(items.skip(m + 1), o, ind);
        let r1 = arr_rest(items, m + 1, o, ind, sb, ga, ge);
        assert(seq!['\n'] + x + ge + seq![']'] == seq!['\n'] + ic + r1);
        assert(arr_rest(items, m, o, ind, sb, ga, ge) == p + (sb + seq![','] + ga + r1));
        assert(seq!['\n'] + items_expanded(r, o, ind) + ge + seq![']'] =~= seq!['\n'] + ic + p + sb
            + seq![','] + (seq!['\n'] + x + ge + seq![']']));
        assert(seq!['\n'] + ic + p + sb + seq![','] + (seq!['\n'] + ic + r1) =~= seq!['\n'] + ic
            + arr_rest(items, m, o, ind, sb, ga, ge));
    } else {
        assert(arr_rest(items, m, o, ind, sb, ga, ge) == p + (ge + seq![']']));
        assert(seq!['\n'] + items_expanded(r, o, ind) + ge + seq![']'] =~= seq!['\n'] + ic
            + arr_rest(items, m, o, ind, sb, ga, ge));
    }
}

/// The text of the entries of an object from the value of the one at `m`:
/// the gap `gca` after its colon, its value, then, for each entry after it,
/// `gb`, a comma, `ga`, its key, `gcb`, a colon, `gca` and its value; then
/// `ge` and `}`.
spec fn obj_rest(
    entries: Seq<(Seq<char>, JValue)>,
    m: int,
    o: crate::print::Options,
    ind: nat,
    gcb: Seq<char>,
    gca: Seq<char>,
    gb: Seq<char>,
    ga: Seq<char>,
    ge: Seq<char>,
) -> Seq<char>
    decreases entries.len() - m,
{
    if 0 <= m < entries.len() {
        gca + print_spec(entries[m].1, o, ind) + (if m + 1 < entries.len() {
            gb + seq![','] + ga + string_literal(entries[m + 1].0) + gcb + seq![':'] + obj_rest(
                entries,
                m + 1,
                o,
                ind,
                gcb,
                gca,
                gb,
                ga,
                ge,
            )
        } else {
            ge + seq!['}']
        })
    } else {
        Seq::empty()
    }
}

proof fn lemma_obj_rest_inline(
    entries: Seq<(Seq<char>, JValue)>,
    m: int,
    o: crate::print::Options,
    ind: nat,
)
    requires
        0 <= m < entries.len(),
    ensures
        entries_inline(entries.skip(m), o, ind) + spaces(o.object_end as nat) + seq!['}']
            == string_literal(entries[m].0) + spaces(o.object_before_colon as nat) + seq![':']
            + obj_rest(
            entries,
            m,
            o,
            ind,
            spaces(o.object_before_colon as nat),
            spaces(o.object_after_colon as nat),
            spaces(o.object_before_comma as nat),
            spaces(o.object_after_comma as nat),
            spaces(o.object_end as nat),
        ),
    decreases entries.len() - m,
{
    let r = entries.skip(m);
    let cb = spaces(o.object_before_colon as nat);
    let ca = spaces(o.object_after_colon as nat);
    let sb = spaces(o.object_before_comma as nat);
    let sa = spaces(o.object_after_comma as nat);
    let se = spaces(o.object_end as nat);
    let x = entries[m];
    let lit = string_literal(x.0);
    let p = print_spec(x.1, o, ind);
    lemma_entries_inline_front(r, o, ind);
    assert(r[0] == x);
    assert(entry_spec(x.0, x.1, o, ind) == lit + cb + seq![':'] + ca + p);
    if m + 1 < entries.len() {
        assert(r.drop_first() =~= entries.skip(m + 1));
        lemma_obj_rest_inline(entries, m + 1, o, ind);
        let y = entries[m + 1];
        let rest = entries_inline(entries.skip(m + 1), o, ind);
        let r1 = obj_rest(entries, m + 1, o, ind, cb, ca, sb, sa, se);
        assert(rest + se + seq!['}'] == string_literal(y.0) + cb + seq![':'] + r1);
        assert(obj_rest(entries, m, o, ind, cb, ca, sb, sa, se) == ca + p + (sb + seq![','] + sa
            + string_literal(y.0) + cb + seq![':'] + r1));
        assert(entries_inline(r, o, ind) + se + seq!['}'] =~= lit + cb + seq![':'] + ca + p + (sb
            + seq![','] + sa) + (rest + se + seq!['}']));
        assert(lit + cb + seq![':'] + ca + p + (sb + seq![','] + sa) + (string_literal(y.0) + cb
            + seq![':'] + r1) =~= lit + cb + seq![':'] + obj_rest(entries, m, o, ind, cb, ca, sb, sa, se));
    } else {
        assert(obj_rest(entries, m, o, ind, cb, ca, sb, sa, se) == ca + p + (se + seq!['}']));
        assert(entries_inline(r, o, ind) + se + seq!['}'] =~= lit + cb + seq![':'] + obj_rest(
            entries,
            m,
            o,
            ind,
            cb,
            ca,
            sb,
            sa,
            se,
        ));
    }
}

#[verifier::rlimit(100)]
#[verifier::spinoff_prover]
proof fn lemma_obj_rest_expanded(
    entries: Seq<(Seq<char>, JValue)>,
    m: int,
    o: crate::print::Options,
    ind: nat,
    ge: Seq<char>,
)
    requires
        0 <= m < entries.len(),
    ensures
        seq!['\n'] + entries_expanded(entries.skip(m), o, ind) + ge + seq!['}'] == seq!['\n']
            + indent_chars(o.indent, ind) + string_literal(entries[m].0) + spaces(
            o.object_before_colon as nat,
        ) + seq![':'] + obj_rest(
            entries,
            m,
            o,
            ind,
            spaces(o.object_before_colon as nat),
            spaces(o.object_after_colon as nat),
            spaces(o.object_before_comma as nat),
            seq!['\n'] + indent_chars(o.indent, ind),
            ge,
        ),
    decreases entries.len() - m,
{
    let r = entries.skip(m);
    let ic = indent_chars(o.indent, ind);
    let cb = spaces(o.object_before_colon as nat);
    let ca = spaces(o.object_after_colon as nat);
    let sb = spaces(o.object_before_comma as nat);
    let ga = seq!['\n'] + ic;
    let x = entries[m];
    let lit = string_literal(x.0);
    let p = print_spec(x.1, o, ind);
    lemma_entries_expanded_front(r, o, ind);
    assert(r[0] == x);
    assert(entry_spec(x.0, x.1, o, ind) == lit + cb + seq![':'] + ca + p);
    if m + 1 < entries.len() {
        assert(r.drop_first() =~= entries.skip(m + 1));
        lemma_obj_rest_expanded(entries, m + 1, o, ind, ge);
        let y = entries[m + 1];
        let rest = entries_expanded(entries.skip(m + 1), o, ind);
        let r1 = obj_rest(entries, m + 1, o, ind, cb, ca, sb, ga, ge);
        assert(seq!['\n'] + rest + ge + seq!['}'] == seq!['\n'] + ic + string_literal(y.0) + cb
            + seq![':'] + r1);
        assert(obj_rest(entries, m, o, ind, cb, ca, sb, ga, ge) == ca + p + (sb + seq![','] + ga
            + string_literal(y.0) + cb + seq![':'] + r1));
        assert(seq!['\n'] + entries_expanded(r, o, ind) + ge + seq!['}'] =~= seq!['\n'] + ic + lit
            + cb + seq![':'] + ca + p + sb + seq![','] + (seq!['\n'] + rest + ge + seq!['}']));
        assert(seq!['\n'] + ic + lit + cb + seq![':'] + ca + p + sb + seq![','] + (seq!['\n'] + ic
            + string_literal(y.0) + cb + seq![':'] + r1) =~= seq!['\n'] + ic + lit + cb + seq![':']
            + obj_rest(entries, m, o, ind, cb, ca, sb, ga, ge));
    } else {
        assert(obj_rest(entries, m, o, ind, cb, ca, sb, ga, ge) == ca + p + (ge + seq!['}']));
        assert(seq!['\n'] + entries_expanded(r, o, ind) + ge + seq!['}'] =~= seq!['\n'] + ic + lit
            + cb + seq![':'] + obj_rest(entries, m, o, ind, cb, ca, sb, ga, ge));
    }
}

/// The gaps of the printed array `items` at the level `ind`: after `[`,
/// before and after each comma, and before `]`.
spec fn arr_gaps(items: Seq<JValue>, o: crate::print::Options, ind: nat) -> (
    Seq<char>,
    Seq<char>,
    Seq<char>,
    Seq<char>,
) {
    match size_spec(JValue::Array(items), o) {
        Some(_) => (
            spaces(o.array_begin as nat),
            spaces(o.array_before_comma as nat),
            spaces(o.array_after_comma as nat),
            spaces(o.array_end as nat),
        ),
        None => (
            seq!['\n'] + indent_chars(o.indent, ind + 1),
            spaces(o.array_before_comma as nat),
            seq!['\n'] + indent_chars(o.indent, ind + 1),
            seq!['\n'] + indent_chars(o.indent, ind),
        ),
    }
}

/// The gap inside the printed empty array or object at the level `ind`.
spec fn empty_gap(v: JValue, o: crate::print::Options, ind: nat) -> Seq<char> {
    match size_spec(v, o) {
        Some(_) => if v is Array {
            spaces(o.array_empty as nat)
        } else {
            spaces(o.object_empty as nat)
        },
        None => seq!['\n'] + indent_chars(o.indent, ind),
    }
}

/// The gaps of the printed object `entries` at the level `ind`: after `{`,
/// before and after each colon, before and after each comma, and before
/// `}`.
spec fn obj_gaps(entries: Seq<(Seq<char>, JValue)>, o: crate::print::Options, ind: nat) -> (
    Seq<char>,
    Seq<char>,
    Seq<char>,
    Seq<char>,
    Seq<char>,
    Seq<char>,
) {
    match size_spec(JValue::Object(entries), o) {
        Some(_) => (
            spaces(o.object_begin as nat),
            spaces(o.object_before_colon as nat),
            spaces(o.object_after_colon as nat),
            spaces(o.object_before_comma as nat),
            spaces(o.object_after_comma as nat),
            spaces(o.object_end as nat),
        ),
        None => (
            seq!['\n'] + indent_chars(o.indent, ind + 1),
            spaces(o.object_before_colon as nat),
            spaces(o.object_after_colon as nat),
            spaces(o.object_before_comma as nat),
            seq!['\n'] + indent_chars(o.indent, ind + 1),
            seq!['\n'] + indent_chars(o.indent, ind),
        ),
    }
}

/// What is printed for an array: its gaps are whitespaces.
proof fn lemma_print_array(items: Seq<JValue>, o: crate::print::Options, ind: nat)
    ensures
        ({
            let v = JValue::Array(items);
            let g = arr_gaps(items, o, ind);
            &&& all_ws(g.0) && all_ws(g.1) && all_ws(g.2) && all_ws(g.3)
            &&& all_ws(empty_gap(v, o, ind))
            &&& items.len() == 0 ==> print_spec(v, o, ind) == seq!['['] + empty_gap(v, o, ind)
                + seq![']']
            &&& items.len() > 0 ==> print_spec(v, o, ind) == seq!['['] + g.0 + arr_rest(
                items,
                0,
                o,
                ind + 1,
                g.1,
                g.2,
                g.3,
            )
        }),
{
    let v = JValue::Array(items);
    let t = print_spec(v, o, ind);
    lemma_indent_ws(o.indent, ind);
    lemma_indent_ws(o.indent, ind + 1);
    lemma_indent_ws(o.indent, o.array_begin as nat);
    lemma_indent_ws(o.indent, o.array_before_comma as nat);
    lemma_indent_ws(o.indent, o.array_after_comma as nat);
    lemma_indent_ws(o.indent, o.array_end as nat);
    lemma_indent_ws(o.indent, o.array_empty as nat);
    if items.len() == 0 {
        assert(t =~= seq!['['] + empty_gap(v, o, ind) + seq![']']);
    } else {
        assert(items.skip(0) =~= items);
        match size_spec(v, o) {
            Some(_) => {
                lemma_arr_rest_inline(items, 0, o, ind + 1);
                assert(t =~= seq!['['] + spaces(o.array_begin as nat) + (items_inline(
                    items,
                    o,
                    ind + 1,
                ) + spaces(o.array_end as nat) + seq![']']));
            },
            None => {
                let ge = seq!['\n'] + indent_chars(o.indent, ind);
                lemma_arr_rest_expanded(items, 0, o, ind + 1, ge);
                assert(t =~= seq!['['] + (seq!['\n'] + items_expanded(items, o, ind + 1) + ge
                    + seq![']']));
            },
        }
    }
}

/// What is printed for an object: its gaps are whitespaces.
proof fn lemma_print_object(entries: Seq<(Seq<char>, JValue)>, o: crate::print::Options, ind: nat)
    ensures
        ({
            let v = JValue::Object(entries);
            let g = obj_gaps(entries, o, ind);
            &&& all_ws(g.0) && all_ws(g.1) && all_ws(g.2) && all_ws(g.3) && all_ws(g.4) && all_ws(
                g.5,
            )
            &&& all_ws(empty_gap(v, o, ind))
            &&& entries.len() == 0 ==> print_spec(v, o, ind) == seq!['{'] + empty_gap(v, o, ind)
                + seq!['}']
            &&& entries.len() > 0 ==> print_spec(v, o, ind) == seq!['{'] + g.0 + string_literal(
                entries[0].0,
            ) + g.1 + seq![':'] + obj_rest(entries, 0, o, ind + 1, g.1, g.2, g.3, g.4, g.5)
        }),
{
    let v = JValue::Object(entries);
    let t = print_spec(v, o, ind);
    lemma_indent_ws(o.indent, ind);
    lemma_indent_ws(o.indent, ind + 1);
    lemma_indent_ws(o.indent, o.object_begin as nat);
    lemma_indent_ws(o.indent, o.object_before_colon as nat);
    lemma_indent_ws(o.indent, o.object_after_colon as nat);
    lemma_indent_ws(o.indent, o.object_before_comma as nat);
    lemma_indent_ws(o.indent, o.object_after_comma as nat);
    lemma_indent_ws(o.indent, o.object_end as nat);
    lemma_indent_ws(o.indent, o.object_empty as nat);
    if entries.len() == 0 {
        assert(t =~= seq!['{'] + empty_gap(v, o, ind) + seq!['}']);
    } else {
        assert(entries.skip(0) =~= entries);
        match size_spec(v, o) {
            Some(_) => {
                lemma_obj_rest_inline(entries, 0, o, ind + 1);
                assert(t =~= seq!['{'] + spaces(o.object_begin as nat) + (entries_inline(
                    entries,
                    o,
                    ind + 1,
                ) + spaces(o.object_end as nat) + seq!['}']));
            },
            None => {
                let ge = seq!['\n'] + indent_chars(o.indent, ind);
                lemma_obj_rest_expanded(entries, 0, o, ind + 1, ge);
                assert(t =~= seq!['{'] + (seq!['\n'] + entries_expanded(entries, o, ind + 1) + ge
                    + seq!['}']));
            },
        }
    }
}

/// What is printed for a scalar, and the first character of what is
/// printed for any value: never a whitespace or a closing bracket.
proof fn lemma_print_start(v: JValue, o: crate::print::Options, ind: nat)
    requires
        numbers_valid(v),
    ensures
        print_spec(v, o, ind).len() > 0,
        !is_ws(print_spec(v, o, ind)[0]),
        print_spec(v, o, ind)[0] != ']',
        print_spec(v, o, ind)[0] != '}',
        v is Array ==> print_spec(v, o, ind)[0] == '[',
        v is Object ==> print_spec(v, o, ind)[0] == '{',
        v is Null ==> print_spec(v, o, ind) == seq!['n', 'u', 'l', 'l'],
        v matches JValue::Boolean(b) ==> print_spec(v, o, ind) == (if b {
            seq!['t', 'r', 'u', 'e']
        } else {
            seq!['f', 'a', 'l', 's', 'e']
        }),
        v matches JValue::Number(n) ==> print_spec(v, o, ind) == n && (crate::number::is_digit(n[0])
            || n[0] == '-'),
        v matches JValue::String(s) ==> print_spec(v, o, ind) == string_literal(s),
{
    match v {
        JValue::Number(n) => {
            if n.len() == 0 {
                assert(number_run(NumberState::Init, n) == Some(NumberState::Init));
            } else {
                assert(number_step(NumberState::Init, n[0]) is Some);
            }
        },
        _ => {},
    }
}

/// A key literal, whitespaces `g`, then a colon, read from `k`.
proof fn lemma_key_gap_colon(inp: Input, k: int, key: Seq<char>, g: Seq<char>)
    requires
        0 <= k,
        all_ws(g),
        k + string_literal(key).len() + g.len() + 1 <= inp.len(),
        inp.chars.subrange(k, k + string_literal(key).len() + g.len() + 1) == string_literal(key) + g
            + seq![':'],
    ensures
        inp.key_colon(k) == Ok::<(Seq<char>, int, int), PErr>(
            (key, k + string_literal(key).len(), k + string_literal(key).len() + g.len() + 1),
        ),
{
    let lit = string_literal(key);
    let n = lit.len() as int;
    let t = lit + g + seq![':'];
    assert(inp.chars.subrange(k, k + n) =~= t.subrange(0, n));
    assert(t.subrange(0, n) =~= lit);
    lemma_literal_reads(inp, k, key);
    assert(inp.chars[k] == t[0]);
    assert(inp.string_at(k) == Ok::<(Seq<char>, int), PErr>((key, k + n)));
    assert(inp.chars.subrange(k + n, k + n + g.len()) =~= t.subrange(n, n + g.len()));
    assert(t.subrange(n, n + g.len()) =~= g);
    lemma_skip_gap(inp, k + n, g);
    assert(inp.chars[k + n + g.len()] == t[n + g.len()]);
    assert(t[n + g.len()] == ':');
    assert(inp.skip_ws(k + n + g.len()) == Ok::<int, PErr>(k + n + g.len()));
    assert(inp.get(k + n + g.len()) == Some(':'));
}

/// The fragment at `j` whose text is what is printed for a scalar `v`.
proof fn lemma_scalar_fragment(
    inp: Input,
    j: int,
    ctx: Context,
    v: JValue,
    o: crate::print::Options,
    ind: nat,
)
    requires
        numbers_valid(v),
        !(v is Array),
        !(v is Object),
        0 <= j,
        j + print_spec(v, o, ind).len() <= inp.len(),
        inp.chars.subrange(j, j + print_spec(v, o, ind).len()) == print_spec(v, o, ind),
        ends_value(inp, j + print_spec(v, o, ind).len(), ctx),
    ensures
        inp.fragment(j, ctx) == Ok::<Frag, PErr>(Frag::Whole(v, j, j + print_spec(v, o, ind).len())),
{
    let t = print_spec(v, o, ind);
    lemma_print_start(v, o, ind);
    assert(inp.chars[j] == t[0]);
    assert(inp.skip_ws(j) == Ok::<int, PErr>(j));
    assert(inp.get(j) == Some(t[0]));
    match v {
        JValue::Null => {
            lemma_word_reads(inp, j, seq!['n', 'u', 'l', 'l'], 0);
        },
        JValue::Boolean(b) => {
            if b {
                lemma_word_reads(inp, j, seq!['t', 'r', 'u', 'e'], 0);
            } else {
                lemma_word_reads(inp, j, seq!['f', 'a', 'l', 's', 'e'], 0);
            }
        },
        JValue::Number(n) => {
            lemma_number_reads(inp, j, NumberState::Init, n, ctx);
        },
        JValue::String(s) => {
            lemma_literal_reads(inp, j, s);
        },
        _ => {},
    }
}

/// The fragment at `j` whose text is what is printed for an array.
proof fn lemma_array_fragment(
    inp: Input,
    j: int,
    ctx: Context,
    items: Seq<JValue>,
    o: crate::print::Options,
    ind: nat,
)
    requires
        items_valid(items),
        0 <= j,
        j + print_spec(JValue::Array(items), o, ind).len() <= inp.len(),
        inp.chars.subrange(j, j + print_spec(JValue::Array(items), o, ind).len()) == print_spec(
            JValue::Array(items),
            o,
            ind,
        ),
    ensures
        items.len() == 0 ==> inp.fragment(j, ctx) == Ok::<Frag, PErr>(
            Frag::Whole(
                JValue::Array(items),
                j,
                j + print_spec(JValue::Array(items), o, ind).len(),
            ),
        ),
        items.len() > 0 ==> inp.fragment(j, ctx) == Ok::<Frag, PErr>(
            Frag::BeginArray(j, j + 1 + arr_gaps(items, o, ind).0.len()),
        ),
{
    let v = JValue::Array(items);
    let t = print_spec(v, o, ind);
    lemma_print_array(items, o, ind);
    assert(inp.chars[j] == t[0]);
    assert(inp.skip_ws(j) == Ok::<int, PErr>(j));
    if items.len() == 0 {
        let g = empty_gap(v, o, ind);
        assert(inp.chars.subrange(j + 1, j + 1 + (g.len() as int)) =~= t.subrange(1, 1 + (g.len() as int)));
        assert(t.subrange(1, 1 + (g.len() as int)) =~= g);
        lemma_skip_gap(inp, j + 1, g);
        assert(inp.chars[j + 1 + (g.len() as int)] == t[1 + (g.len() as int)]);
        assert(inp.skip_ws(j + 1 + (g.len() as int)) == Ok::<int, PErr>(j + 1 + (g.len() as int)));
        assert(items =~= Seq::<JValue>::empty());
    } else {
        let g = arr_gaps(items, o, ind);
        let r = arr_rest(items, 0, o, ind + 1, g.1, g.2, g.3);
        lemma_items_valid(items, 0);
        lemma_print_start(items[0], o, ind + 1);
        assert(r[0] == print_spec(items[0], o, ind + 1)[0]);
        assert(inp.chars.subrange(j + 1, j + 1 + (g.0.len() as int)) =~= t.subrange(1, 1 + (g.0.len() as int)));
        assert(t.subrange(1, 1 + (g.0.len() as int)) =~= g.0);
        lemma_skip_gap(inp, j + 1, g.0);
        assert(inp.chars[j + 1 + (g.0.len() as int)] == t[1 + (g.0.len() as int)]);
        assert(t[1 + (g.0.len() as int)] == r[0]);
        assert(inp.skip_ws(j + 1 + (g.0.len() as int)) == Ok::<int, PErr>(j + 1 + (g.0.len() as int)));
    }
}

/// The fragment at `j` whose text is what is printed for an object.
proof fn lemma_object_fragment(
    inp: Input,
    j: int,
    ctx: Context,
    entries: Seq<(Seq<char>, JValue)>,
    o: crate::print::Options,
    ind: nat,
)
    requires
        entries_valid(entries),
        0 <= j,
        j + print_spec(JValue::Object(entries), o, ind).len() <= inp.len(),
        inp.chars.subrange(j, j + print_spec(JValue::Object(entries), o, ind).len()) == print_spec(
            JValue::Object(entries),
            o,
            ind,
        ),
    ensures
        entries.len() == 0 ==> inp.fragment(j, ctx) == Ok::<Frag, PErr>(
            Frag::Whole(
                JValue::Object(entries),
                j,
                j + print_spec(JValue::Object(entries), o, ind).len(),
            ),
        ),
        entries.len() > 0 ==> ({
            let g = obj_gaps(entries, o, ind);
            let ks = j + 1 + (g.0.len() as int);
            let ke = ks + string_literal(entries[0].0).len();
            inp.fragment(j, ctx) == Ok::<Frag, PErr>(
                Frag::BeginObject(j, entries[0].0, ks, ke, ke + (g.1.len() as int) + 1),
            )
        }),
{
    let v = JValue::Object(entries);
    let t = print_spec(v, o, ind);
    lemma_print_object(entries, o, ind);
    assert(inp.chars[j] == t[0]);
    assert(inp.skip_ws(j) == Ok::<int, PErr>(j));
    if entries.len() == 0 {
        let g = empty_gap(v, o, ind);
        assert(inp.chars.subrange(j + 1, j + 1 + (g.len() as int)) =~= t.subrange(1, 1 + (g.len() as int)));
        assert(t.subrange(1, 1 + (g.len() as int)) =~= g);
        lemma_skip_gap(inp, j + 1, g);
        assert(inp.chars[j + 1 + (g.len() as int)] == t[1 + (g.len() as int)]);
        assert(inp.skip_ws(j + 1 + (g.len() as int)) == Ok::<int, PErr>(j + 1 + (g.len() as int)));
        assert(entries =~= Seq::<(Seq<char>, JValue)>::empty());
    } else {
        let g = obj_gaps(entries, o, ind);
        let lit = string_literal(entries[0].0);
        let kl = lit.len() as int;
        let ks = j + 1 + (g.0.len() as int);
        assert(inp.chars.subrange(j + 1, ks) =~= t.subrange(1, 1 + (g.0.len() as int)));
        assert(t.subrange(1, 1 + (g.0.len() as int)) =~= g.0);
        lemma_skip_gap(inp, j + 1, g.0);
        assert(inp.chars[ks] == t[1 + (g.0.len() as int)]);
        assert(t[1 + (g.0.len() as int)] == '"');
        assert(inp.skip_ws(ks) == Ok::<int, PErr>(ks));
        assert(inp.chars.subrange(ks, ks + kl + (g.1.len() as int) + 1) =~= t.subrange(
            1 + (g.0.len() as int),
            1 + (g.0.len() as int) + kl + (g.1.len() as int) + 1,
        ));
        assert(t.subrange(1 + (g.0.len() as int), 1 + (g.0.len() as int) + kl + (g.1.len() as int) + 1) =~= lit + g.1 + seq![
            ':',
        ]);
        lemma_key_gap_colon(inp, ks, entries[0].0, g.1);
    }
}

/// Whitespaces then a character that may follow a value: the value may end
/// at `e`.
proof fn lemma_gap_ends_value(inp: Input, e: int, g: Seq<char>, c: char, ctx: Context)
    requires
        0 <= e,
        all_ws(g),
        follows(ctx, c),
        e + g.len() + 1 <= inp.len(),
        inp.chars.subrange(e, e + g.len() + 1) == g + seq![c],
    ensures
        ends_value(inp, e, ctx),
{
    assert(inp.chars[e] == (g + seq![c])[0]);
    if g.len() > 0 {
        assert(is_ws(g[0]));
    }
}

/// Whitespaces then `,` or `]` after an array item ending at `e`.
proof fn lemma_array_continue_gap(inp: Input, e: int, g: Seq<char>, c: char)
    requires
        0 <= e,
        all_ws(g),
        c == ',' || c == ']',
        e + g.len() + 1 <= inp.len(),
        inp.chars.subrange(e, e + g.len() + 1) == g + seq![c],
    ensures
        c == ',' ==> inp.array_continue(e) == Ok::<ArrCont, PErr>(ArrCont::Item(e + g.len() + 1)),
        c == ']' ==> inp.array_continue(e) == Ok::<ArrCont, PErr>(ArrCont::End(e + g.len() + 1)),
{
    assert(inp.chars.subrange(e, e + g.len()) =~= (g + seq![c]).subrange(0, g.len() as int));
    assert((g + seq![c]).subrange(0, g.len() as int) =~= g);
    lemma_skip_gap(inp, e, g);
    assert(inp.chars[e + g.len()] == (g + seq![c])[g.len() as int]);
    assert(inp.skip_ws(e + g.len()) == Ok::<int, PErr>(e + g.len()));
}

/// Whitespaces then `}` after an object entry ending at `e`.
proof fn lemma_object_end_gap(inp: Input, e: int, g: Seq<char>)
    requires
        0 <= e,
        all_ws(g),
        e + g.len() + 1 <= inp.len(),
        inp.chars.subrange(e, e + g.len() + 1) == g + seq!['}'],
    ensures
        inp.object_continue(e) == Ok::<ObjCont, PErr>(ObjCont::End(e + g.len() + 1)),
{
    assert(inp.chars.subrange(e, e + g.len()) =~= (g + seq!['}']).subrange(0, g.len() as int));
    assert((g + seq!['}']).subrange(0, g.len() as int) =~= g);
    lemma_skip_gap(inp, e, g);
    assert(inp.chars[e + g.len()] == (g + seq!['}'])[g.len() as int]);
    assert(inp.skip_ws(e + g.len()) == Ok::<int, PErr>(e + g.len()));
}

/// Whitespaces, a comma, whitespaces, then the key and colon of the next
/// entry, after an object entry ending at `e`.
proof fn lemma_object_next_gap(
    inp: Input,
    e: int,
    gb: Seq<char>,
    ga: Seq<char>,
    key: Seq<char>,
    gcb: Seq<char>,
)
    requires
        0 <= e,
        all_ws(gb),
        all_ws(ga),
        all_ws(gcb),
        e + gb.len() + 1 + ga.len() + string_literal(key).len() + gcb.len() + 1 <= inp.len(),
        inp.chars.subrange(
            e,
            e + gb.len() + 1 + ga.len() + string_literal(key).len() + gcb.len() + 1,
        ) == gb + seq![','] + ga + string_literal(key) + gcb + seq![':'],
    ensures
        ({
            let ks = e + gb.len() + 1 + ga.len();
            let ke = ks + string_literal(key).len();
            inp.object_continue(e) == Ok::<ObjCont, PErr>(
                ObjCont::Entry(key, ks, ke, ke + gcb.len() + 1),
            )
        }),
{
    let lit = string_literal(key);
    let t = gb + seq![','] + ga + lit + gcb + seq![':'];
    let b = gb.len() as int;
    let a = ga.len() as int;
    let kl = lit.len() as int;
    let cl = gcb.len() as int;
    assert(inp.chars.subrange(e, e + b) =~= t.subrange(0, b));
    assert(t.subrange(0, b) =~= gb);
    lemma_skip_gap(inp, e, gb);
    assert(inp.chars[e + b] == t[b]);
    assert(t[b] == ',');
    assert(inp.skip_ws(e + b) == Ok::<int, PErr>(e + b));
    assert(inp.chars.subrange(e + b + 1, e + b + 1 + a) =~= t.subrange(b + 1, b + 1 + a));
    assert(t.subrange(b + 1, b + 1 + a) =~= ga);
    lemma_skip_gap(inp, e + b + 1, ga);
    let ks = e + b + 1 + a;
    assert(inp.chars[ks] == t[b + 1 + a]);
    assert(t[b + 1 + a] == '"');
    assert(inp.skip_ws(ks) == Ok::<int, PErr>(ks));
    assert(inp.chars.subrange(ks, ks + kl + cl + 1) =~= t.subrange(b + 1 + a, t.len() as int));
    assert(t.subrange(b + 1 + a, t.len() as int) =~= lit + gcb + seq![':']);
    lemma_key_gap_colon(inp, ks, key, gcb);
}

/// Whitespaces `w` then what is printed for `v`, read from `i` in the
/// context `ctx`, give `v` back and end after the text.
proof fn lemma_read_value(
    inp: Input,
    i: int,
    ctx: Context,
    v: JValue,
    o: crate::print::Options,
    ind: nat,
    w: Seq<char>,
)
    requires
        numbers_valid(v),
        0 <= i,
        all_ws(w),
        i + w.len() + print_spec(v, o, ind).len() <= inp.len(),
        inp.chars.subrange(i, i + w.len() + print_spec(v, o, ind).len()) == w + print_spec(v, o, ind),
        ends_value(inp, i + w.len() + print_spec(v, o, ind).len(), ctx),
    ensures
        inp.value(i, ctx) matches Ok((x, e, _)) && x == v && e == i + w.len() + print_spec(
            v,
            o,
            ind,
        ).len(),
    decreases v, 3int, 0int,
{
    let t = print_spec(v, o, ind);
    let wl = w.len() as int;
    let j = i + wl;
    let all = w + t;
    assert(inp.chars.subrange(i, j) =~= all.subrange(0, wl));
    assert(all.subrange(0, wl) =~= w);
    assert(inp.chars.subrange(j, j + t.len()) =~= all.subrange(wl, all.len() as int));
    assert(all.subrange(wl, all.len() as int) =~= t);
    lemma_skip_gap(inp, i, w);
    lemma_print_start(v, o, ind);
    assert(inp.chars[j] == t[0]);
    assert(inp.skip_ws(j) == Ok::<int, PErr>(j));
    assert(inp.fragment(i, ctx) == inp.fragment(j, ctx));
    assert(inp.value(i, ctx) == inp.value(j, ctx));
    match v {
        JValue::Array(items) => {
            lemma_read_array(inp, j, ctx, items, o, ind);
        },
        JValue::Object(entries) => {
            lemma_read_object(inp, j, ctx, entries, o, ind);
        },
        _ => {
            lemma_scalar_fragment(inp, j, ctx, v, o, ind);
        },
    }
}

/// What is printed for an array, read from `j`.
#[verifier::rlimit(60)]
#[verifier::spinoff_prover]
proof fn lemma_read_array(
    inp: Input,
    j: int,
    ctx: Context,
    items: Seq<JValue>,
    o: crate::print::Options,
    ind: nat,
)
    requires
        items_valid(items),
        0 <= j,
        j + print_spec(JValue::Array(items), o, ind).len() <= inp.len(),
        inp.chars.subrange(j, j + print_spec(JValue::Array(items), o, ind).len()) == print_spec(
            JValue::Array(items),
            o,
            ind,
        ),
    ensures
        inp.value(j, ctx) matches Ok((x, e, _)) && x == JValue::Array(items) && e == j + print_spec(
            JValue::Array(items),
            o,
            ind,
        ).len(),
    decreases items, 2int, 0int,
{
    let t = print_spec(JValue::Array(items), o, ind);
    lemma_array_fragment(inp, j, ctx, items, o, ind);
    if items.len() > 0 {
        let g = arr_gaps(items, o, ind);
        lemma_print_array(items, o, ind);
        let r = arr_rest(items, 0, o, ind + 1, g.1, g.2, g.3);
        let k = j + 1 + (g.0.len() as int);
        assert(t =~= seq!['['] + g.0 + r);
        assert(inp.chars.subrange(k, k + r.len()) =~= t.subrange(
            1 + (g.0.len() as int),
            t.len() as int,
        ));
        assert(t.subrange(1 + (g.0.len() as int), t.len() as int) =~= r);
        assert(Seq::<char>::empty() + r =~= r);
        assert(all_ws(Seq::<char>::empty()));
        lemma_read_items(inp, j, k, items, 0, Seq::empty(), o, ind + 1, g.1, g.2, g.3, Seq::empty());
        assert(items.take(0) =~= Seq::<JValue>::empty());
    }
}

/// What is printed for an object, read from `j`.
proof fn lemma_read_object(
    inp: Input,
    j: int,
    ctx: Context,
    entries: Seq<(Seq<char>, JValue)>,
    o: crate::print::Options,
    ind: nat,
)
    requires
        entries_valid(entries),
        0 <= j,
        j + print_spec(JValue::Object(entries), o, ind).len() <= inp.len(),
        inp.chars.subrange(j, j + print_spec(JValue::Object(entries), o, ind).len()) == print_spec(
            JValue::Object(entries),
            o,
            ind,
        ),
    ensures
        inp.value(j, ctx) matches Ok((x, e, _)) && x == JValue::Object(entries) && e == j
            + print_spec(JValue::Object(entries), o, ind).len(),
    decreases entries, 2int, 0int,
{
    let t = print_spec(JValue::Object(entries), o, ind);
    lemma_object_fragment(inp, j, ctx, entries, o, ind);
    if entries.len() > 0 {
        let g = obj_gaps(entries, o, ind);
        lemma_print_object(entries, o, ind);
        let lit = string_literal(entries[0].0);
        let r = obj_rest(entries, 0, o, ind + 1, g.1, g.2, g.3, g.4, g.5);
        let ks = j + 1 + (g.0.len() as int);
        let ke = ks + (lit.len() as int);
        let kv = ke + (g.1.len() as int) + 1;
        assert(t =~= seq!['{'] + g.0 + lit + g.1 + seq![':'] + r);
        let off = kv - j;
        assert(inp.chars.subrange(kv, kv + r.len()) =~= t.subrange(off, t.len() as int));
        assert(t.subrange(off, t.len() as int) =~= r);
        lemma_read_members(
            inp,
            j,
            entries,
            0,
            ks,
            ke,
            kv,
            Seq::empty(),
            o,
            ind + 1,
            g.1,
            g.2,
            g.3,
            g.4,
            g.5,
        );
        assert(entries.take(0) =~= Seq::<(Seq<char>, JValue)>::empty());
    }
}

/// Whitespaces `w` then the items of `items` from the one at `m`, read from
/// `k` after the items before it.
proof fn lemma_read_items(
    inp: Input,
    start: int,
    k: int,
    items: Seq<JValue>,
    m: int,
    cm: Seq<super::grammar::SEntry>,
    o: crate::print::Options,
    ind: nat,
    gb: Seq<char>,
    ga: Seq<char>,
    ge: Seq<char>,
    w: Seq<char>,
)
    requires
        items_valid(items),
        0 <= m < items.len(),
        0 <= k,
        all_ws(gb),
        all_ws(ga),
        all_ws(ge),
        all_ws(w),
        k + w.len() + arr_rest(items, m, o, ind, gb, ga, ge).len() <= inp.len(),
        inp.chars.subrange(k, k + w.len() + arr_rest(items, m, o, ind, gb, ga, ge).len()) == w
            + arr_rest(items, m, o, ind, gb, ga, ge),
    ensures
        inp.items(start, k, items.take(m), cm) matches Ok((x, e, _)) && x == JValue::Array(items)
            && e == k + w.len() + arr_rest(items, m, o, ind, gb, ga, ge).len(),
    decreases items, 1int, items.len() - m,
{
    let r = arr_rest(items, m, o, ind, gb, ga, ge);
    let all = w + r;
    let p = print_spec(items[m], o, ind);
    let wl = w.len() as int;
    let pl = p.len() as int;
    let e = k + wl + pl;
    lemma_items_valid(items, m);
    lemma_print_start(items[m], o, ind);
    assert(inp.chars.subrange(k, e) =~= all.subrange(0, wl + pl));
    assert(all.subrange(0, wl + pl) =~= w + p);
    if m + 1 < items.len() {
        let r1 = arr_rest(items, m + 1, o, ind, gb, ga, ge);
        assert(r == p + (gb + seq![','] + ga + r1));
        let bl = gb.len() as int;
        assert(inp.chars.subrange(e, e + bl + 1) =~= all.subrange(wl + pl, wl + pl + bl + 1));
        assert(all.subrange(wl + pl, wl + pl + bl + 1) =~= gb + seq![',']);
        lemma_gap_ends_value(inp, e, gb, ',', Context::Array);
        lemma_read_value(inp, k, Context::Array, items[m], o, ind, w);
        let cmv = inp.value(k, Context::Array)->Ok_0.2;
        lemma_array_continue_gap(inp, e, gb, ',');
        let n = e + bl + 1;
        assert(inp.chars.subrange(n, n + ga.len() + r1.len()) =~= all.subrange(
            wl + pl + bl + 1,
            all.len() as int,
        ));
        assert(all.subrange(wl + pl + bl + 1, all.len() as int) =~= ga + r1);
        lemma_read_items(inp, start, n, items, m + 1, cm + cmv, o, ind, gb, ga, ge, ga);
        assert(items.take(m).push(items[m]) =~= items.take(m + 1));
    } else {
        assert(r == p + (ge + seq![']']));
        let el = ge.len() as int;
        assert(inp.chars.subrange(e, e + el + 1) =~= all.subrange(wl + pl, wl + pl + el + 1));
        assert(all.subrange(wl + pl, wl + pl + el + 1) =~= ge + seq![']']);
        lemma_gap_ends_value(inp, e, ge, ']', Context::Array);
        lemma_read_value(inp, k, Context::Array, items[m], o, ind, w);
        lemma_array_continue_gap(inp, e, ge, ']');
        assert(items.take(m).push(items[m]) =~= items);
    }
}

/// The rest of an object from the value of the entry at `m`, read from `kv`,
/// the key of that entry having been read from `ks` to `ke`.
#[verifier::rlimit(60)]
#[verifier::spinoff_prover]
proof fn lemma_read_members(
    inp: Input,
    start: int,
    entries: Seq<(Seq<char>, JValue)>,
    m: int,
    ks: int,
    ke: int,
    kv: int,
    cm: Seq<super::grammar::SEntry>,
    o: crate::print::Options,
    ind: nat,
    gcb: Seq<char>,
    gca: Seq<char>,
    gb: Seq<char>,
    ga: Seq<char>,
    ge: Seq<char>,
)
    requires
        entries_valid(entries),
        0 <= m < entries.len(),
        0 <= kv,
        all_ws(gcb),
        all_ws(gca),
        all_ws(gb),
        all_ws(ga),
        all_ws(ge),
        kv + obj_rest(entries, m, o, ind, gcb, gca, gb, ga, ge).len() <= inp.len(),
        inp.chars.subrange(kv, kv + obj_rest(entries, m, o, ind, gcb, gca, gb, ga, ge).len())
            == obj_rest(entries, m, o, ind, gcb, gca, gb, ga, ge),
    ensures
        inp.members(start, entries[m].0, ks, ke, kv, entries.take(m), cm) matches Ok((x, e, _))
            && x == JValue::Object(entries) && e == kv + obj_rest(
            entries,
            m,
            o,
            ind,
            gcb,
            gca,
            gb,
            ga,
            ge,
        ).len(),
    decreases entries, 1int, entries.len() - m,
{
    let r = obj_rest(entries, m, o, ind, gcb, gca, gb, ga, ge);
    let x = entries[m];
    let p = print_spec(x.1, o, ind);
    let cl = gca.len() as int;
    let pl = p.len() as int;
    let e = kv + cl + pl;
    lemma_entries_valid(entries, m);
    lemma_print_start(x.1, o, ind);
    assert(inp.chars.subrange(kv, e) =~= r.subrange(0, cl + pl));
    let acc2 = entries.take(m).push((x.0, x.1));
    if m + 1 < entries.len() {
        let y = entries[m + 1];
        let lit = string_literal(y.0);
        let r1 = obj_rest(entries, m + 1, o, ind, gcb, gca, gb, ga, ge);
        assert(r == gca + p + (gb + seq![','] + ga + lit + gcb + seq![':'] + r1));
        assert(r.subrange(0, cl + pl) =~= gca + p);
        let bl = gb.len() as int;
        let al = ga.len() as int;
        let kl = lit.len() as int;
        let cbl = gcb.len() as int;
        let nl = bl + 1 + al + kl + cbl + 1;
        assert(inp.chars.subrange(e, e + bl + 1) =~= r.subrange(cl + pl, cl + pl + bl + 1));
        assert(r.subrange(cl + pl, cl + pl + bl + 1) =~= gb + seq![',']);
        lemma_gap_ends_value(inp, e, gb, ',', Context::ObjectValue);
        lemma_read_value(inp, kv, Context::ObjectValue, x.1, o, ind, gca);
        let cmv = inp.value(kv, Context::ObjectValue)->Ok_0.2;
        assert(inp.chars.subrange(e, e + nl) =~= r.subrange(cl + pl, cl + pl + nl));
        assert(r.subrange(cl + pl, cl + pl + nl) =~= gb + seq![','] + ga + lit + gcb + seq![':']);
        lemma_object_next_gap(inp, e, gb, ga, y.0, gcb);
        let ks2 = e + bl + 1 + al;
        let ke2 = ks2 + kl;
        let kv2 = ke2 + cbl + 1;
        assert(inp.chars.subrange(kv2, kv2 + r1.len()) =~= r.subrange(cl + pl + nl, r.len() as int));
        assert(r.subrange(cl + pl + nl, r.len() as int) =~= r1);
        let cm2 = cm + seq![
            super::grammar::SEntry { start: ks, end: e, volume: 2 + cmv.len() as int },
            super::grammar::SEntry { start: ks, end: ke, volume: 1 },
        ] + cmv;
        assert(acc2 =~= entries.take(m + 1));
        lemma_read_members(
            inp,
            start,
            entries,
            m + 1,
            ks2,
            ke2,
            kv2,
            cm2,
            o,
            ind,
            gcb,
            gca,
            gb,
            ga,
            ge,
        );
    } else {
        assert(r == gca + p + (ge + seq!['}']));
        assert(r.subrange(0, cl + pl) =~= gca + p);
        let el = ge.len() as int;
        assert(inp.chars.subrange(e, e + el + 1) =~= r.subrange(cl + pl, cl + pl + el + 1));
        assert(r.subrange(cl + pl, cl + pl + el + 1) =~= ge + seq!['}']);
        lemma_gap_ends_value(inp, e, ge, '}', Context::ObjectValue);
        lemma_read_value(inp, kv, Context::ObjectValue, x.1, o, ind, gca);
        lemma_object_end_gap(inp, e, ge);
        assert(acc2 =~= entries);
    }
}

/// Parsing what the printer writes for a value gives that value back,
/// whatever the print options and the parse options: the printer writes
/// strict JSON, its layout is whitespace that the parser skips, and the
/// parser reads the value it was written from. (The numbers of the value
/// must be in lexical JSON form, as those of parsed values and of
/// `NumberBuf`s are.)
pub proof fn lemma_print_parses(v: JValue, print_options: crate::print::Options, options: Options)
    requires
        numbers_valid(v),
    ensures
        parse_spec(str_input(print_spec(v, print_options, 0), options)) matches Ok((w, _)) && w
            == v,
{
    let t = print_spec(v, print_options, 0);
    let inp = str_input(t, options);
    assert(inp.chars.subrange(0, t.len() as int) =~= Seq::<char>::empty() + t);
    assert(all_ws(Seq::<char>::empty()));
    lemma_read_value(inp, 0, Context::Root, v, print_options, 0, Seq::empty());
    assert(inp.skip_ws(t.len() as int) == Ok::<int, PErr>(t.len() as int));
}

/// A number read by the automaton from `k` in state `st` is the run of the
/// automaton from `st` to an accepting state.
proof fn lemma_parsed_number(inp: Input, k: int, st: NumberState, ctx: Context)
    requires
        0 <= k <= inp.len(),
    ensures
        inp.number(k, st, ctx) matches Ok(e) ==> k <= e <= inp.len() && (number_run(
            st,
            inp.chars.subrange(k, e),
        ) matches Some(f) && number_state_is_final(f)),
    decreases inp.len() - k,
{
    if k < inp.len() {
        match number_step(st, inp.chars[k]) {
            Some(next) => {
                lemma_parsed_number(inp, k + 1, next, ctx);
                if let Ok(e) = inp.number(k + 1, next, ctx) {
                    let s = inp.chars.subrange(k, e);
                    assert(s[0] == inp.chars[k]);
                    assert(s.drop_first() =~= inp.chars.subrange(k + 1, e));
                }
            },
            None => {
                assert(inp.chars.subrange(k, k) =~= Seq::<char>::empty());
            },
        }
    } else {
        assert(inp.chars.subrange(k, k) =~= Seq::<char>::empty());
    }
}

/// A scalar fragment read from `i` has its numbers in lexical JSON form.
proof fn lemma_parsed_fragment(inp: Input, i: int, ctx: Context)
    requires
        0 <= i,
    ensures
        inp.fragment(i, ctx) matches Ok(Frag::Whole(v, _, _)) ==> numbers_valid(v),
{
    inp.lemma_skip_ws(i);
    if let Ok(j) = inp.skip_ws(i) {
        if let Some(c) = inp.get(j) {
            if crate::number::is_digit(c) || c == '-' {
                lemma_parsed_number(inp, j, NumberState::Init, ctx);
            }
        }
    }
}

/// A value read from `i` has its numbers in lexical JSON form.
proof fn lemma_parsed_value(inp: Input, i: int, ctx: Context)
    ensures
        inp.value(i, ctx) matches Ok((v, _, _)) ==> numbers_valid(v),
    decreases inp.len() - i, 0int,
{
    if i >= 0 {
        lemma_parsed_fragment(inp, i, ctx);
        match inp.fragment(i, ctx) {
            Ok(Frag::BeginArray(start, next)) => {
                inp.lemma_fragment_progress(i, ctx);
                lemma_parsed_items(inp, start, next, Seq::empty(), Seq::empty());
            },
            Ok(Frag::BeginObject(start, key, ks, ke, next)) => {
                inp.lemma_fragment_progress(i, ctx);
                lemma_parsed_members(inp, start, key, ks, ke, next, Seq::empty(), Seq::empty());
            },
            _ => {},
        }
    }
}

/// The array whose items from `k` are read after the items `acc` has its
/// numbers in lexical JSON form, where `acc` has.
proof fn lemma_parsed_items(
    inp: Input,
    start: int,
    k: int,
    acc: Seq<JValue>,
    cm: Seq<super::grammar::SEntry>,
)
    requires
        0 <= k,
        items_valid(acc),
    ensures
        inp.items(start, k, acc, cm) matches Ok((v, _, _)) ==> numbers_valid(v),
    decreases inp.len() - k, 1int,
{
    lemma_parsed_value(inp, k, Context::Array);
    if let Ok((v, e, cmv)) = inp.value(k, Context::Array) {
        if !(e <= k || e > inp.len()) {
            let acc2 = acc.push(v);
            assert(acc2.drop_last() =~= acc);
            assert(items_valid(acc2));
            if let Ok(ArrCont::Item(n)) = inp.array_continue(e) {
                inp.lemma_array_continue_progress(e);
                lemma_parsed_items(inp, start, n, acc2, cm + cmv);
            }
        }
    }
}

/// The object whose entries from the value at `kv` are read after the
/// entries `acc` has its numbers in lexical JSON form, where `acc` has.
proof fn lemma_parsed_members(
    inp: Input,
    start: int,
    key: Seq<char>,
    ks: int,
    ke: int,
    kv: int,
    acc: Seq<(Seq<char>, JValue)>,
    cm: Seq<super::grammar::SEntry>,
)
    requires
        0 <= kv,
        entries_valid(acc),
    ensures
        inp.members(start, key, ks, ke, kv, acc, cm) matches Ok((v, _, _)) ==> numbers_valid(v),
    decreases inp.len() - kv, 1int,
{
    lemma_parsed_value(inp, kv, Context::ObjectValue);
    if let Ok((v, e, cmv)) = inp.value(kv, Context::ObjectValue) {
        if !(e <= kv || e > inp.len()) {
            let acc2 = acc.push((key, v));
            assert(acc2.drop_last() =~= acc);
            assert(entries_valid(acc2));
            let cm2 = cm + seq![
                super::grammar::SEntry { start: ks, end: e, volume: 2 + cmv.len() as int },
                super::grammar::SEntry { start: ks, end: ke, volume: 1 },
            ] + cmv;
            if let Ok(ObjCont::Entry(key2, ks2, ke2, next)) = inp.object_continue(e) {
                inp.lemma_object_continue_progress(e);
                lemma_parsed_members(inp, start, key2, ks2, ke2, next, acc2, cm2);
            }
        }
    }
}

/// Every number of a parsed value is in lexical JSON form.
pub proof fn lemma_parsed_numbers_valid(inp: Input)
    ensures
        parse_spec(inp) matches Ok((v, _)) ==> numbers_valid(v),
{
    lemma_parsed_value(inp, 0, Context::Root);
}

/// Printing a parsed value, with any print options, and parsing the text
/// again, with any parse options, gives the same value.
pub proof fn lemma_parse_print_parse(
    inp: Input,
    print_options: crate::print::Options,
    options: Options,
)
    ensures
        parse_spec(inp) matches Ok((v, _)) ==> (parse_spec(
            str_input(print_spec(v, print_options, 0), options),
        ) matches Ok((w, _)) && w == v),
{
    lemma_parsed_numbers_valid(inp);
    if let Ok((v, _)) = parse_spec(inp) {
        lemma_print_parses(v, print_options, options);
    }
}

/// The numbers of every value are in lexical JSON form, as the number
/// buffers keep them.
pub proof fn lemma_value_numbers_valid(v: Value)
    ensures
        numbers_valid(v.view_json()),
    decreases v, 1int,
{
    match v {
        Value::Number(n) => NumberBuf::lemma_is_number(n),
        Value::Array(a) => lemma_values_numbers_valid(a@),
        Value::Object(o) => lemma_entries_numbers_valid(o.entries@),
        _ => {},
    }
}

proof fn lemma_values_numbers_valid(s: Seq<Value>)
    ensures
        items_valid(values_view(s)),
    decreases s, 0int,
{
    if s.len() > 0 {
        lemma_values_numbers_valid(s.drop_last());
        lemma_value_numbers_valid(s.last());
        assert(values_view(s).drop_last() =~= values_view(s.drop_last()));
    }
}

proof fn lemma_entries_numbers_valid(s: Seq<Entry>)
    ensures
        entries_valid(entries_view(s)),
    decreases s, 0int,
{
    if s.len() > 0 {
        lemma_entries_numbers_valid(s.drop_last());
        lemma_value_numbers_valid(s.last().value);
        assert(entries_view(s).drop_last() =~= entries_view(s.drop_last()));
    }
}

/// Parsing what the printer writes for a value, with any print options and
/// any parse options, gives that value back: the same structure, entry
/// order and duplicate keys, strings and lexical numbers.
pub proof fn lemma_value_print_parses(v: Value, print_options: crate::print::Options, options: Options)
    ensures
        parse_spec(str_input(print_spec(v.view_json(), print_options, 0), options)) matches Ok((w, _))
            && w == v.view_json(),
{
    lemma_value_numbers_valid(v);
    lemma_print_parses(v.view_json(), print_options, options);
}

} // verus!
