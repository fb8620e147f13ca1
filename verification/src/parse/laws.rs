//! Laws of the JSON grammar: what its escapes mean and which characters
//! separate its tokens (RFC 8259).
use vstd::prelude::*;
use super::Context;
use super::grammar::Input;
use super::grammar::simple_escape;
use crate::number::{NumberState, number_state_is_final, is_digit};

verus! {

/// Inside a string, each simple escape of RFC 8259 stands for the one
/// character that it names, and reading goes on right after it: `\"` a
/// quotation mark, `\\` a reverse solidus, `\/` a solidus, `\b` a
/// backspace, `\f` a form feed, `\n` a line feed, `\r` a carriage return
/// and `\t` a tab.
pub proof fn lemma_simple_escapes(inp: Input, k: int, acc: Seq<char>)
    requires
        0 <= k,
        k + 1 < inp.len(),
        inp.chars[k] == '\\',
    ensures
        inp.chars[k + 1] == '"' ==> inp.string(k, acc, None) == inp.string(k + 2, acc.push('"'), None),
        inp.chars[k + 1] == '\\' ==> inp.string(k, acc, None) == inp.string(
            k + 2,
            acc.push('\\'),
            None,
        ),
        inp.chars[k + 1] == '/' ==> inp.string(k, acc, None) == inp.string(k + 2, acc.push('/'), None),
        inp.chars[k + 1] == 'b' ==> inp.string(k, acc, None) == inp.string(
            k + 2,
            acc.push('\u{0008}'),
            None,
        ),
        inp.chars[k + 1] == 'f' ==> inp.string(k, acc, None) == inp.string(
            k + 2,
            acc.push('\u{000c}'),
            None,
        ),
        inp.chars[k + 1] == 'n' ==> inp.string(k, acc, None) == inp.string(
            k + 2,
            acc.push('\u{000a}'),
            None,
        ),
        inp.chars[k + 1] == 'r' ==> inp.string(k, acc, None) == inp.string(
            k + 2,
            acc.push('\u{000d}'),
            None,
        ),
        inp.chars[k + 1] == 't' ==> inp.string(k, acc, None) == inp.string(
            k + 2,
            acc.push('\u{0009}'),
            None,
        ),
{
    let e = inp.chars[k + 1];
    assert(inp.get(k + 1) == Some(e));
    if let Some(d) = simple_escape(e) {
        assert(inp.string(k, acc, None) == inp.string_push(k + 2, acc, None, d));
        assert(inp.string_push(k + 2, acc, None, d) == inp.string(k + 2, acc.push(d), None));
    }
}

/// A string literal made of an escape alone holds the one character that
/// the escape names: in particular `"\/"` reads as `/`.
pub proof fn lemma_escaped_solidus(inp: Input, k: int)
    requires
        0 <= k,
        k + 3 < inp.len(),
        inp.chars[k] == '"',
        inp.chars[k + 1] == '\\',
        inp.chars[k + 2] == '/',
        inp.chars[k + 3] == '"',
    ensures
        inp.string_at(k) == Ok::<(Seq<char>, int), super::grammar::PErr>((seq!['/'], k + 4)),
{
    lemma_simple_escapes(inp, k + 1, Seq::empty());
    assert(Seq::<char>::empty().push('/') =~= seq!['/']);
}

/// The four whitespace characters of RFC 8259 (space, tab, line feed and
/// carriage return) may stand before any value without changing what is
/// read: the value, its end and its code map are those read from the next
/// character.
pub proof fn lemma_whitespace_before_value(inp: Input, i: int, ctx: Context)
    requires
        0 <= i < inp.len(),
        inp.chars[i] == ' ' || inp.chars[i] == '\t' || inp.chars[i] == '\n' || inp.chars[i]
            == '\r',
    ensures
        inp.skip_ws(i) == inp.skip_ws(i + 1),
        inp.value(i, ctx) == inp.value(i + 1, ctx),
{
    assert(inp.fragment(i, ctx) == inp.fragment(i + 1, ctx));
}

/// A document that starts with one of the four whitespace characters of
/// RFC 8259 parses as what follows it does, up to the end of the input: in
/// particular a leading carriage return is no error.
pub proof fn lemma_leading_whitespace(inp: Input)
    requires
        0 < inp.len(),
        inp.chars[0] == ' ' || inp.chars[0] == '\t' || inp.chars[0] == '\n' || inp.chars[0]
            == '\r',
    ensures
        inp.document() == (match inp.value(1, Context::Root) {
            Err(x) => Err(x),
            Ok((v, e, cm)) => inp.finish(v, e, cm),
        }),
{
    lemma_whitespace_before_value(inp, 0, Context::Root);
}

/// Any character other than the four whitespace characters of RFC 8259
/// stops the skipping of whitespace.
pub proof fn lemma_whitespace_stops(inp: Input, i: int)
    requires
        0 <= i < inp.len(),
        !(inp.chars[i] == ' ' || inp.chars[i] == '\t' || inp.chars[i] == '\n' || inp.chars[i]
            == '\r'),
    ensures
        inp.skip_ws(i) == Ok::<int, super::grammar::PErr>(i),
{
}

/// A complete number ends at any of the four whitespace characters of
/// RFC 8259, whatever the number is part of.
pub proof fn lemma_whitespace_ends_number(inp: Input, k: int, st: NumberState, ctx: Context)
    requires
        0 <= k < inp.len(),
        number_state_is_final(st),
        inp.chars[k] == ' ' || inp.chars[k] == '\t' || inp.chars[k] == '\n' || inp.chars[k]
            == '\r',
    ensures
        inp.number(k, st, ctx) == Ok::<int, super::grammar::PErr>(k),
{
    assert(!is_digit(inp.chars[k]));
}

} // verus!
