//! Printing JSON values.
use vstd::prelude::*;
use crate::parse::parser::{string_push, char_width};
use crate::parse::grammar::{byte_offset, utf8_width};
use crate::parse::utf8::{lemma_byte_offset_push, lemma_byte_offset_encode};
use vstd::utf8::encode_utf8;
use vstd::string::{StrSliceExecFns, StringExecFns};
use crate::value::{Value, JValue, values_view, entries_view, lemma_values_view, lemma_entries_view};
use crate::object::Object;
use crate::number::NumberBuf;
use spec::{
    spaces, indent_unit, indent_chars, escape, escaped, hex_char, add_size, limit_size, size_spec,
    sizes_spec, width_bound, items_width_bound, entries_width_bound, depth, print_spec,
    items_size, entries_size, items_sizes, entries_sizes, items_expanded, items_inline,
    entries_expanded, entries_inline, entry_spec, lemma_size_bound, lemma_items_size_bound,
    lemma_entries_size_bound, lemma_items_step, lemma_entries_step, lemma_items_prefix,
    lemma_entries_prefix, lemma_items_depth, lemma_entries_depth,
};
use sized::{
    slots, items_slots, entries_slots, print_sized, items_expanded_sized, items_inline_sized,
    entries_expanded_sized, entries_inline_sized, entry_sized, lemma_items_slots_prefix,
    lemma_entries_slots_prefix, lemma_print_sized,
};

pub mod spec;
pub mod contextual;
pub mod sized;

verus! {

/// Indentation unit.
#[derive(Clone, Copy, PartialEq, Eq, Structural, Debug, Hash)]
pub enum Indent {
    Spaces(u8),
    Tabs(u8),
}

/// Limit after which an array or object is expanded.
#[derive(Clone, Copy, PartialEq, Eq, Structural, Debug, Hash)]
pub enum Limit {
    /// Always expanded, even if empty.
    Always,
    /// Expanded if the array/object has more than the given number of items.
    Item(usize),
    /// Expanded if the representation of the array/object is more than the
    /// given number of characters long.
    Width(usize),
    /// Expanded if the array/object has more than the given number of items
    /// (first argument), or if its the representation is more than the
    /// given number of characters long (second argument).
    ItemOrWidth(usize, usize),
}

/// Print options.
#[derive(Clone, Copy, PartialEq, Eq, Debug, Hash)]
pub struct Options {
    /// Indentation string.
    pub indent: Indent,
    /// Number of spaces after `[`.
    pub array_begin: usize,
    /// Number of spaces before `]`.
    pub array_end: usize,
    /// Number of spaces inside an inlined empty array.
    pub array_empty: usize,
    /// Number of spaces before a comma in an array.
    pub array_before_comma: usize,
    /// Number of spaces after a comma in an array.
    pub array_after_comma: usize,
    /// Limit after which an array is expanded.
    pub array_limit: Option<Limit>,
    /// Number of spaces after `{`.
    pub object_begin: usize,
    /// Number of spaces before `}`.
    pub object_end: usize,
    /// Number of spaces inside an inlined empty object.
    pub object_empty: usize,
    /// Number of spaces before a comma in an object.
    pub object_before_comma: usize,
    /// Number of spaces after a comma in an object.
    pub object_after_comma: usize,
    /// Number of spaces before a colon in an object.
    pub object_before_colon: usize,
    /// Number of spaces after a colon in an object.
    pub object_after_colon: usize,
    /// Limit after which an object is expanded.
    pub object_limit: Option<Limit>,
}


impl Indent {
    pub fn by<>(self, n: usize) -> (r: IndentBy)
        ensures
            r.0 == self,
            r.1 == n,
    {
        IndentBy(self, n)
    }

    /// The indentation unit, as text.
    pub fn to_string(&self) -> (r: String)
        ensures
            r@ == indent_unit(*self),
    {
        let mut out = String::new();
        push_indent_unit(&mut out, *self);
        out
    }
}

/// Indentation unit repeated a number of times.
pub struct IndentBy(pub Indent, pub usize);

impl IndentBy {
    /// The indentation, as text.
    pub fn to_string(&self) -> (r: String)
        ensures
            r@ == indent_chars(self.0, self.1 as nat),
    {
        let mut out = String::new();
        push_indent(&mut out, self.0, self.1);
        out
    }
}

/// A number of spaces.
pub struct Spaces(pub usize);

impl Spaces {
    /// The spaces, as text.
    pub fn to_string(&self) -> (r: String)
        ensures
            r@ == spaces(self.0 as nat),
    {
        let mut out = String::new();
        push_spaces(&mut out, self.0);
        out
    }
}

/// Padding: spaces or a new line.
#[derive(Clone, Copy, PartialEq, Eq, Structural, Debug, Hash)]
pub enum Padding {
    Spaces(u8),
    NewLine,
}

/// The text of a padding.
pub open spec fn padding_chars(p: Padding) -> Seq<char> {
    match p {
        Padding::Spaces(n) => spaces(n as nat),
        Padding::NewLine => seq!['\n'],
    }
}

impl Padding {
    /// The padding, as text.
    pub fn to_string(&self) -> (r: String)
        ensures
            r@ == padding_chars(*self),
    {
        let mut out = String::new();
        match self {
            Padding::Spaces(n) => push_spaces(&mut out, *n as usize),
            Padding::NewLine => string_push(&mut out, '\n'),
        }
        out
    }
}

/// The options of [`Options::pretty`].
pub open spec fn pretty_options() -> Options {
    Options {
        indent: Indent::Spaces(2),
        array_begin: 1,
        array_end: 1,
        array_empty: 0,
        array_before_comma: 0,
        array_after_comma: 1,
        array_limit: Some(Limit::ItemOrWidth(1, 16)),
        object_begin: 1,
        object_end: 1,
        object_empty: 0,
        object_before_comma: 0,
        object_after_comma: 1,
        object_before_colon: 0,
        object_after_colon: 1,
        object_limit: Some(Limit::ItemOrWidth(1, 16)),
    }
}

/// The options of [`Options::compact`].
pub open spec fn compact_options() -> Options {
    Options {
        indent: Indent::Spaces(0),
        array_begin: 0,
        array_end: 0,
        array_empty: 0,
        array_before_comma: 0,
        array_after_comma: 0,
        array_limit: None,
        object_begin: 0,
        object_end: 0,
        object_empty: 0,
        object_before_comma: 0,
        object_after_comma: 0,
        object_before_colon: 0,
        object_after_colon: 0,
        object_limit: None,
    }
}

/// The options of [`Options::inline`].
pub open spec fn inline_options() -> Options {
    Options {
        indent: Indent::Spaces(0),
        array_begin: 1,
        array_end: 1,
        array_empty: 0,
        array_before_comma: 0,
        array_after_comma: 1,
        array_limit: None,
        object_begin: 1,
        object_end: 1,
        object_empty: 0,
        object_before_comma: 0,
        object_after_comma: 1,
        object_before_colon: 0,
        object_after_colon: 1,
        object_limit: None,
    }
}

impl Options {
    /// Pretty print options.
    pub fn pretty() -> (r: Options)
        ensures
            r == pretty_options(),
    {
        Options {
            indent: Indent::Spaces(2),
            array_begin: 1,
            array_end: 1,
            array_empty: 0,
            array_before_comma: 0,
            array_after_comma: 1,
            array_limit: Some(Limit::ItemOrWidth(1, 16)),
            object_begin: 1,
            object_end: 1,
            object_empty: 0,
            object_before_comma: 0,
            object_after_comma: 1,
            object_before_colon: 0,
            object_after_colon: 1,
            object_limit: Some(Limit::ItemOrWidth(1, 16)),
        }
    }

    /// Compact print options: values are formatted on a single line without
    /// spaces.
    pub fn compact() -> (r: Options)
        ensures
            r == compact_options(),
    {
        Options {
            indent: Indent::Spaces(0),
            array_begin: 0,
            array_end: 0,
            array_empty: 0,
            array_before_comma: 0,
            array_after_comma: 0,
            array_limit: None,
            object_begin: 0,
            object_end: 0,
            object_empty: 0,
            object_before_comma: 0,
            object_after_comma: 0,
            object_before_colon: 0,
            object_after_colon: 0,
            object_limit: None,
        }
    }

    /// Inline print options: values are formatted on a single line with
    /// some spaces.
    pub fn inline() -> (r: Options)
        ensures
            r == inline_options(),
    {
        Options {
            indent: Indent::Spaces(0),
            array_begin: 1,
            array_end: 1,
            array_empty: 0,
            array_before_comma: 0,
            array_after_comma: 1,
            array_limit: None,
            object_begin: 1,
            object_end: 1,
            object_empty: 0,
            object_before_comma: 0,
            object_after_comma: 1,
            object_before_colon: 0,
            object_after_colon: 1,
            object_limit: None,
        }
    }
}

/// The size of a value.
#[derive(Clone, Copy, Debug)]
pub enum Size {
    /// The value (array or object) is expanded on multiple lines.
    Expanded,
    /// The value is formatted in a single line with the given character width.
    Width(usize),
}

impl View for Size {
    type V = Option<int>;

    open spec fn view(&self) -> Option<int> {
        match *self {
            Size::Expanded => None,
            Size::Width(w) => Some(w as int),
        }
    }
}

impl Size {
    pub fn add(&mut self, other: Size)
        requires
            match (old(self)@, other@) {
                (Some(a), Some(b)) => a + b <= usize::MAX,
                _ => true,
            },
        ensures
            final(self)@ == add_size(old(self)@, other@),
    {
        *self = match (*self, other) {
            (Size::Width(a), Size::Width(b)) => Size::Width(a + b),
            _ => Size::Expanded,
        }
    }
}

/// Appends `n` spaces.
fn push_spaces(out: &mut String, n: usize)
    ensures
        final(out)@ == old(out)@ + spaces(n as nat),
{
    let mut i: usize = 0;
    while i < n
        invariant
            i <= n,
            out@ == old(out)@ + spaces(i as nat),
        decreases n - i,
    {
        string_push(out, ' ');
        i = i + 1;
        assert(spaces(i as nat) =~= spaces((i - 1) as nat).push(' '));
    }
}

/// Appends `n` times the character `c`.
fn push_repeat(out: &mut String, c: char, n: u8)
    ensures
        final(out)@ == old(out)@ + Seq::new(n as nat, |i: int| c),
{
    let mut i: u8 = 0;
    while i < n
        invariant
            i <= n,
            out@ == old(out)@ + Seq::new(i as nat, |j: int| c),
        decreases n - i,
    {
        string_push(out, c);
        i = i + 1;
        assert(Seq::new(i as nat, |j: int| c) =~= Seq::new((i - 1) as nat, |j: int| c).push(c));
    }
}

/// Appends one unit of indentation.
fn push_indent_unit(out: &mut String, indent: Indent)
    ensures
        final(out)@ == old(out)@ + indent_unit(indent),
{
    match indent {
        Indent::Spaces(n) => push_repeat(out, ' ', n),
        Indent::Tabs(n) => push_repeat(out, '\t', n),
    }
}

/// Appends `n` units of indentation.
fn push_indent(out: &mut String, indent: Indent, n: usize)
    ensures
        final(out)@ == old(out)@ + indent_chars(indent, n as nat),
{
    let mut i: usize = 0;
    while i < n
        invariant
            i <= n,
            out@ == old(out)@ + indent_chars(indent, i as nat),
        decreases n - i,
    {
        push_indent_unit(out, indent);
        i = i + 1;
        assert(old(out)@ + indent_chars(indent, i as nat) =~= old(out)@ + indent_chars(
            indent,
            (i - 1) as nat,
        ) + indent_unit(indent));
    }
}

/// Appends the characters `cs`.
fn push_chars(out: &mut String, cs: &[char])
    ensures
        final(out)@ == old(out)@ + cs@,
{
    let mut i: usize = 0;
    while i < cs.len()
        invariant
            i <= cs@.len(),
            out@ == old(out)@ + cs@.take(i as int),
        decreases cs@.len() - i,
    {
        string_push(out, cs[i]);
        assert(cs@.take(i + 1) =~= cs@.take(i as int).push(cs@[i as int]));
        i = i + 1;
    }
    assert(cs@.take(cs@.len() as int) =~= cs@);
}

/// The lowercase hexadecimal digit of `c`.
fn digit(c: u32) -> (r: char)
    requires
        c <= 0xf,
    ensures
        r == hex_char(c),
{
    match c {
        0x0 => '0',
        0x1 => '1',
        0x2 => '2',
        0x3 => '3',
        0x4 => '4',
        0x5 => '5',
        0x6 => '6',
        0x7 => '7',
        0x8 => '8',
        0x9 => '9',
        0xa => 'a',
        0xb => 'b',
        0xc => 'c',
        0xd => 'd',
        0xe => 'e',
        _ => 'f',
    }
}

/// Appends the character `c` as written in a string literal.
fn push_escaped(out: &mut String, c: char)
    ensures
        final(out)@ == old(out)@ + escape(c),
{
    if c == '\\' {
        push_chars(out, &['\\', '\\']);
        assert(['\\', '\\']@ =~= seq!['\\', '\\']);
    } else if c == '"' {
        push_chars(out, &['\\', '"']);
        assert(['\\', '"']@ =~= seq!['\\', '"']);
    } else if c == '\u{0008}' {
        push_chars(out, &['\\', 'b']);
        assert(['\\', 'b']@ =~= seq!['\\', 'b']);
    } else if c == '\u{0009}' {
        push_chars(out, &['\\', 't']);
        assert(['\\', 't']@ =~= seq!['\\', 't']);
    } else if c == '\u{000a}' {
        push_chars(out, &['\\', 'n']);
        assert(['\\', 'n']@ =~= seq!['\\', 'n']);
    } else if c == '\u{000c}' {
        push_chars(out, &['\\', 'f']);
        assert(['\\', 'f']@ =~= seq!['\\', 'f']);
    } else if c == '\u{000d}' {
        push_chars(out, &['\\', 'r']);
        assert(['\\', 'r']@ =~= seq!['\\', 'r']);
    } else if (c as u32) <= 0x1f {
        let codepoint = c as u32;
        let d = codepoint & 0x000f;
        let c1 = (codepoint & 0x00f0) >> 4;
        let b = (codepoint & 0x0f00) >> 8;
        let a = (codepoint & 0xf000) >> 12;
        assert(a == 0 && b == 0 && c1 == codepoint / 16 && d == codepoint % 16) by (bit_vector)
            requires
                codepoint <= 0x1f,
                d == codepoint & 0x000f,
                c1 == (codepoint & 0x00f0) >> 4,
                b == (codepoint & 0x0f00) >> 8,
                a == (codepoint & 0xf000) >> 12,
        ;
        let da = digit(a);
        let db = digit(b);
        let dc = digit(c1);
        let dd = digit(d);
        push_chars(out, &['\\', 'u', da, db, dc, dd]);
        assert(['\\', 'u', da, db, dc, dd]@ =~= escape(c));
    } else {
        string_push(out, c);
        assert(old(out)@.push(c) =~= old(out)@ + seq![c]);
    }
}

/// Appends the string literal of `s` (RFC 8785).
pub fn string_literal(s: &str, f: &mut String)
    ensures
        final(f)@ == old(f)@ + spec::string_literal(s@),
{
    broadcast use vstd::string::axiom_spec_iter;

    string_push(f, '"');
    for c in it: s.chars()
        invariant
            it.seq() == s@,
            f@ == old(f)@ + seq!['"'] + escaped(it.seq().take(it.index())),
    {
        proof {
            let k = it.index();
            assert(it.seq().take(k + 1).drop_last() =~= it.seq().take(k));
        }
        push_escaped(f, c);
        proof {
            let k = it.index();
            assert(escaped(it.seq().take(k + 1)) == escaped(it.seq().take(k)) + escape(c));
        }
    }
    string_push(f, '"');
    proof {
        assert(s@.take(s@.len() as int) =~= s@);
        assert(f@ =~= old(f)@ + spec::string_literal(s@));
    }
}

/// The number of characters of the string literal of `s` (RFC 8785): its
/// width on a line.
fn literal_width(s: &str) -> (r: usize)
    requires
        spec::string_literal(s@).len() <= usize::MAX,
    ensures
        r == spec::string_literal(s@).len(),
{
    broadcast use vstd::string::axiom_spec_iter;

    let mut width: usize = 2;
    for c in it: s.chars()
        invariant
            it.seq() == s@,
            spec::string_literal(s@).len() <= usize::MAX,
            width == 2 + escaped(it.seq().take(it.index())).len(),
    {
        proof {
            let k = it.index();
            assert(it.seq().take(k + 1).drop_last() =~= it.seq().take(k));
            lemma_escaped_prefix(s@, k + 1);
        }
        width = width + if c == '\\' || c == '"' || c == '\u{0008}' || c == '\u{0009}' || c
            == '\u{000a}' || c == '\u{000c}' || c == '\u{000d}' {
            2
        } else if (c as u32) <= 0x1f {
            6
        } else {
            1
        };
    }
    proof {
        assert(s@.take(s@.len() as int) =~= s@);
    }
    width
}

/// The number of bytes of the UTF-8 encoding of the characters `s`.
pub open spec fn byte_len(s: Seq<char>) -> nat {
    byte_offset(s, s.len() as int)
}

proof fn lemma_byte_len_push(s: Seq<char>, c: char)
    ensures
        byte_len(s.push(c)) == byte_len(s) + utf8_width(c),
{
    lemma_byte_offset_push(s, c, s.len() as int);
    assert(s.push(c)[s.len() as int] == c);
}

proof fn lemma_byte_len_add(a: Seq<char>, b: Seq<char>)
    ensures
        byte_len(a + b) == byte_len(a) + byte_len(b),
    decreases b.len(),
{
    if b.len() == 0 {
        assert(a + b =~= a);
    } else {
        let b1 = b.drop_last();
        let c = b.last();
        lemma_byte_len_add(a, b1);
        assert(a + b =~= (a + b1).push(c));
        assert(b =~= b1.push(c));
        lemma_byte_len_push(a + b1, c);
        lemma_byte_len_push(b1, c);
    }
}

/// The number of bytes of the escape of `c`.
proof fn lemma_escape_bytes(c: char)
    ensures
        byte_len(escape(c)) == if escape(c).len() > 1 {
            escape(c).len() as nat
        } else {
            utf8_width(c)
        },
{
    let e = escape(c);
    if e.len() > 1 {
        assert forall|i: int| 0 <= i < e.len() implies (#[trigger] e[i] as u32) < 0x80 by {}
        lemma_ascii_bytes(e);
    } else {
        assert(e =~= Seq::<char>::empty().push(c));
        lemma_byte_len_push(Seq::<char>::empty(), c);
    }
}

/// Characters below 0x80 take one byte each.
proof fn lemma_ascii_bytes(e: Seq<char>)
    requires
        forall|i: int| 0 <= i < e.len() ==> (#[trigger] e[i] as u32) < 0x80,
    ensures
        byte_len(e) == e.len(),
    decreases e.len(),
{
    if e.len() > 0 {
        let d = e.drop_last();
        assert forall|i: int| 0 <= i < d.len() implies (#[trigger] d[i] as u32) < 0x80 by {
            assert(d[i] == e[i]);
        }
        lemma_ascii_bytes(d);
        assert(e =~= d.push(e.last()));
        lemma_byte_len_push(d, e.last());
    }
}

/// The number of bytes of the string literal of `s` (RFC 8785): the two
/// quotes, two bytes for each character written as a two-character escape,
/// six for each one written as `\u00XX`, and the UTF-8 width of each other
/// character.
pub fn printed_string_size(s: &str) -> (r: usize)
    requires
        encode_utf8(spec::string_literal(s@)).len() <= usize::MAX,
    ensures
        r == encode_utf8(spec::string_literal(s@)).len(),
        r == 2 + literal_byte_count(s@),
{
    broadcast use vstd::string::axiom_spec_iter;

    proof {
        lemma_literal_bytes(s@);
    }
    let ghost lit = spec::string_literal(s@);
    proof {
        lemma_byte_offset_encode(lit);
        assert(lit == seq!['"'] + escaped(s@) + seq!['"']);
        lemma_byte_len_add(seq!['"'] + escaped(s@), seq!['"']);
        lemma_byte_len_add(seq!['"'], escaped(s@));
        reveal_with_fuel(byte_offset, 2);
        assert(byte_len(seq!['"']) == 1);
    }
    let mut width: usize = 1;
    for c in it: s.chars()
        invariant
            it.seq() == s@,
            byte_len(lit) <= usize::MAX,
            byte_len(lit) == 2 + byte_len(escaped(s@)),
            width == 1 + byte_len(escaped(it.seq().take(it.index()))),
            it.index() <= s@.len(),
    {
        let ghost k = it.index();
        proof {
            assert(it.seq().take(k + 1).drop_last() =~= it.seq().take(k));
            assert(escaped(it.seq().take(k + 1)) == escaped(it.seq().take(k)) + escape(c));
            lemma_byte_len_add(escaped(it.seq().take(k)), escape(c));
            lemma_escape_bytes(c);
            let rest = s@.skip(k + 1);
            assert(s@ =~= s@.take(k + 1) + rest);
            lemma_escaped_add_print(s@.take(k + 1), rest);
            lemma_byte_len_add(escaped(s@.take(k + 1)), escaped(rest));
        }
        width = width + if c == '\\' || c == '"' || c == '\u{0008}' || c == '\u{0009}' || c
            == '\u{000a}' || c == '\u{000c}' || c == '\u{000d}' {
            2
        } else if (c as u32) <= 0x1f {
            6
        } else {
            char_width(c)
        };
    }
    proof {
        assert(s@.take(s@.len() as int) =~= s@);
    }
    width + 1
}

/// The number of bytes that the character `c` takes in a string literal:
/// two for a backslash, a quote and the characters with a short escape, six
/// for the other control characters, its UTF-8 width otherwise.
pub open spec fn escape_byte_count(c: char) -> nat {
    if c == '\\' || c == '"' || c == '\u{0008}' || c == '\u{0009}' || c == '\u{000a}' || c
        == '\u{000c}' || c == '\u{000d}' {
        2
    } else if (c as u32) <= 0x1f {
        6
    } else {
        utf8_width(c)
    }
}

/// The sum of the byte counts of the characters of `s` in a string literal.
pub open spec fn literal_byte_count(s: Seq<char>) -> nat
    decreases s.len(),
{
    if s.len() == 0 {
        0
    } else {
        literal_byte_count(s.drop_last()) + escape_byte_count(s.last())
    }
}

proof fn lemma_escaped_bytes(s: Seq<char>)
    ensures
        byte_len(escaped(s)) == literal_byte_count(s),
    decreases s.len(),
{
    if s.len() == 0 {
        assert(escaped(s) =~= Seq::<char>::empty());
    } else {
        lemma_escaped_bytes(s.drop_last());
        lemma_byte_len_add(escaped(s.drop_last()), escape(s.last()));
        lemma_escape_bytes(s.last());
    }
}

/// The UTF-8 string literal of `s` takes two bytes for its quotes, then
/// the byte count of each of its characters.
pub proof fn lemma_literal_bytes(s: Seq<char>)
    ensures
        encode_utf8(spec::string_literal(s)).len() == 2 + literal_byte_count(s),
{
    let lit = spec::string_literal(s);
    lemma_byte_offset_encode(lit);
    assert(lit == seq!['"'] + escaped(s) + seq!['"']);
    lemma_byte_len_add(seq!['"'] + escaped(s), seq!['"']);
    lemma_byte_len_add(seq!['"'], escaped(s));
    reveal_with_fuel(byte_offset, 2);
    assert(byte_len(seq!['"']) == 1);
    lemma_escaped_bytes(s);
}

/// The escapes of `a + b` are those of `a`, then those of `b`.
proof fn lemma_escaped_add_print(a: Seq<char>, b: Seq<char>)
    ensures
        escaped(a + b) == escaped(a) + escaped(b),
    decreases b.len(),
{
    if b.len() == 0 {
        assert(a + b =~= a);
        assert(escaped(a) + escaped(b) =~= escaped(a));
    } else {
        lemma_escaped_add_print(a, b.drop_last());
        assert((a + b).drop_last() =~= a + b.drop_last());
        assert((a + b).last() == b.last());
    }
}

/// Escaping a prefix gives no more than escaping the whole.
proof fn lemma_escaped_prefix(s: Seq<char>, k: int)
    requires
        0 <= k <= s.len(),
    ensures
        escaped(s.take(k)).len() <= escaped(s).len(),
    decreases s.len() - k,
{
    if k < s.len() {
        lemma_escaped_prefix(s, k + 1);
        assert(s.take(k + 1).drop_last() =~= s.take(k));
    } else {
        assert(s.take(k) =~= s);
    }
}

/// The views of the sizes `s`.
pub open spec fn sizes_view(s: Seq<Size>) -> Seq<Option<int>> {
    s.map_values(|x: Size| x@)
}

/// The size of an array or object of `len` items whose one-line width would
/// be `width`, under `limit`.
fn apply_limit(limit: Option<Limit>, len: usize, width: usize) -> (r: Size)
    ensures
        r@ == limit_size(limit, len as int, width as int),
{
    match limit {
        None => Size::Width(width),
        Some(Limit::Always) => Size::Expanded,
        Some(Limit::Item(i)) => {
            if len > i {
                Size::Expanded
            } else {
                Size::Width(width)
            }
        },
        Some(Limit::ItemOrWidth(i, w)) => {
            if len > i || width > w {
                Size::Expanded
            } else {
                Size::Width(width)
            }
        },
        Some(Limit::Width(w)) => {
            if width > w {
                Size::Expanded
            } else {
                Size::Width(width)
            }
        },
    }
}

/// Computes the size of `value`, and appends the sizes of its arrays and
/// objects, in pre-order, to `sizes`.
pub fn pre_compute_size(value: &Value, options: &Options, sizes: &mut Vec<Size>) -> (r: Size)
    requires
        width_bound(value.view_json(), *options) <= usize::MAX,
    ensures
        r@ == size_spec(value.view_json(), *options),
        sizes_view(final(sizes)@) == sizes_view(old(sizes)@) + sizes_spec(
            value.view_json(),
            *options,
        ),
    decreases value,
{
    proof {
        assert(sizes_view(old(sizes)@) + Seq::<Option<int>>::empty() =~= sizes_view(
            old(sizes)@,
        ));
    }
    match value {
        Value::Null => Size::Width(4),
        Value::Boolean(b) => {
            if *b {
                Size::Width(4)
            } else {
                Size::Width(5)
            }
        },
        Value::Number(n) => Size::Width(n.as_str().unicode_len()),
        Value::String(s) => Size::Width(literal_width(s.as_str())),
        Value::Array(a) => pre_compute_array_size(a, options, sizes),
        Value::Object(o) => pre_compute_object_size(o, options, sizes),
    }
}

/// Computes the size of the array of the items `items`, and appends the
/// sizes of its arrays and objects, in pre-order, to `sizes`.
pub fn pre_compute_array_size(items: &Vec<Value>, options: &Options, sizes: &mut Vec<Size>) -> (r:
    Size)
    requires
        items_width_bound(values_view(items@), *options) <= usize::MAX,
    ensures
        r@ == size_spec(JValue::Array(values_view(items@)), *options),
        sizes_view(final(sizes)@) == sizes_view(old(sizes)@) + sizes_spec(
            JValue::Array(values_view(items@)),
            *options,
        ),
    decreases items,
{
    let ghost jv = values_view(items@);
    let ghost o = *options;
    proof {
        lemma_values_view(items@);
        lemma_items_prefix(jv, o, 0);
        assert(jv.take(0) =~= Seq::<JValue>::empty());
    }
    let index = sizes.len();
    sizes.push(Size::Width(0));
    proof {
        assert(sizes_view(sizes@) =~= sizes_view(old(sizes)@) + seq![Some(0int)] + items_sizes(
            jv.take(0),
            o,
        ));
    }
    let mut size = Size::Width(2 + options.array_begin + options.array_end);
    let mut len: usize = 0;
    let mut i: usize = 0;
    while i < items.len()
        invariant
            jv == values_view(items@),
            o == *options,
            jv.len() == items@.len(),
            forall|k: int| 0 <= k < items@.len() ==> #[trigger] items@[k].view_json() == jv[k],
            items_width_bound(jv, o) <= usize::MAX,
            i <= items@.len(),
            len == i,
            index == old(sizes)@.len(),
            size@ == items_size(jv.take(i as int), o),
            sizes_view(sizes@) == sizes_view(old(sizes)@) + seq![Some(0int)] + items_sizes(
                jv.take(i as int),
                o,
            ),
        decreases items@.len() - i,
    {
        proof {
            lemma_items_step(jv, o, i as int, 0);
            lemma_items_prefix(jv, o, i + 1);
            lemma_items_size_bound(jv.take(i as int), o);
            lemma_size_bound(jv[i as int], o);
        }
        proof {
            let pre = jv.take(i as int);
            let cur = jv.take(i + 1);
            assert(items_width_bound(pre, o) >= 2);
            assert(width_bound(jv[i as int], o) >= 0);
            assert(items_width_bound(cur, o) <= items_width_bound(jv, o));
            assert(size@ matches Some(a) ==> a <= items_width_bound(pre, o));
            assert(items_width_bound(cur, o) == items_width_bound(pre, o) + (if i > 0 {
                1 + o.array_before_comma + o.array_after_comma
            } else {
                0
            }) + width_bound(jv[i as int], o));
            if i > 0 {
                assert(size@ matches Some(a) ==> a + 1 + o.array_before_comma + o.array_after_comma <= usize::MAX);
            }
        }
        if i > 0 {
            size.add(Size::Width(1 + options.array_before_comma + options.array_after_comma));
        }
        let s = pre_compute_size(&items[i], options, sizes);
        size.add(s);
        proof {
            assert(sizes_view(sizes@) =~= sizes_view(old(sizes)@) + seq![Some(0int)] + items_sizes(
                jv.take(i + 1),
                o,
            ));
        }
        len = len + 1;
        i = i + 1;
    }
    proof {
        assert(jv.take(jv.len() as int) =~= jv);
    }
    let size = if len == 0 {
        apply_limit(options.array_limit, 0, 2 + options.array_empty)
    } else {
        match size {
            Size::Expanded => Size::Expanded,
            Size::Width(width) => apply_limit(options.array_limit, len, width),
        }
    };
    let ghost before = sizes@;
    sizes.set(index, size);
    proof {
        assert(sizes_view(sizes@) =~= sizes_view(before).update(index as int, size@));
        assert(sizes_view(sizes@) =~= sizes_view(old(sizes)@) + sizes_spec(JValue::Array(jv), o));
    }
    size
}

/// Computes the size of the object `object`, and appends the sizes of its
/// arrays and objects, in pre-order, to `sizes`.
pub fn pre_compute_object_size(object: &Object, options: &Options, sizes: &mut Vec<Size>) -> (r:
    Size)
    requires
        entries_width_bound(object.view_json(), *options) <= usize::MAX,
    ensures
        r@ == size_spec(JValue::Object(object.view_json()), *options),
        sizes_view(final(sizes)@) == sizes_view(old(sizes)@) + sizes_spec(
            JValue::Object(object.view_json()),
            *options,
        ),
    decreases object,
{
    let ghost je = object.view_json();
    let ghost o = *options;
    proof {
        lemma_entries_view(object.entries@);
        lemma_entries_prefix(je, o, 0);
        assert(je.take(0) =~= Seq::<(Seq<char>, JValue)>::empty());
    }
    let index = sizes.len();
    sizes.push(Size::Width(0));
    proof {
        assert(sizes_view(sizes@) =~= sizes_view(old(sizes)@) + seq![Some(0int)] + entries_sizes(
            je.take(0),
            o,
        ));
    }
    let mut size = Size::Width(2 + options.object_begin + options.object_end);
    let mut len: usize = 0;
    let mut i: usize = 0;
    while i < object.entries.len()
        invariant
            je == entries_view(object.entries@),
            o == *options,
            je.len() == object.entries@.len(),
            forall|k: int|
                0 <= k < object.entries@.len() ==> #[trigger] je[k] == (
                    object.entries@[k].key@,
                    object.entries@[k].value.view_json(),
                ),
            entries_width_bound(je, o) <= usize::MAX,
            i <= object.entries@.len(),
            len == i,
            index == old(sizes)@.len(),
            size@ == entries_size(je.take(i as int), o),
            sizes_view(sizes@) == sizes_view(old(sizes)@) + seq![Some(0int)] + entries_sizes(
                je.take(i as int),
                o,
            ),
        decreases object.entries@.len() - i,
    {
        proof {
            lemma_entries_step(je, o, i as int, 0);
            lemma_entries_prefix(je, o, i + 1);
            lemma_entries_size_bound(je.take(i as int), o);
            lemma_size_bound(je[i as int].1, o);
            assert(je[i as int] == (object.entries@[i as int].key@, object.entries@[i as int].value.view_json()));
        }
        if i > 0 {
            size.add(Size::Width(1 + options.object_before_comma + options.object_after_comma));
        }
        let entry = &object.entries[i];
        let key_size = literal_width(entry.key.as_str());
        size.add(Size::Width(key_size + 1 + options.object_before_colon + options.object_after_colon));
        proof {
            assert(decreases_to!(object => object.entries));
            assert(decreases_to!(object.entries => object.entries@));
            assert(decreases_to!(object.entries@ => object.entries@[i as int]));
            assert(decreases_to!(object.entries@[i as int] => object.entries@[i as int].value));
        }
        let s = pre_compute_size(&entry.value, options, sizes);
        size.add(s);
        proof {
            assert(sizes_view(sizes@) =~= sizes_view(old(sizes)@) + seq![Some(0int)]
                + entries_sizes(je.take(i + 1), o));
        }
        len = len + 1;
        i = i + 1;
    }
    proof {
        assert(je.take(je.len() as int) =~= je);
    }
    let size = if len == 0 {
        apply_limit(options.object_limit, 0, 2 + options.object_empty)
    } else {
        match size {
            Size::Expanded => Size::Expanded,
            Size::Width(width) => apply_limit(options.object_limit, len, width),
        }
    };
    let ghost before = sizes@;
    sizes.set(index, size);
    proof {
        assert(sizes_view(sizes@) =~= sizes_view(before).update(index as int, size@));
        assert(sizes_view(sizes@) =~= sizes_view(old(sizes)@) + sizes_spec(JValue::Object(je), o));
    }
    size
}

/// Prints `value` at the indentation level `indent`, reading the sizes of
/// its arrays and objects from `sizes`, one slot each, from `*index` on.
fn fmt_value_with_size(
    value: &Value,
    f: &mut String,
    options: &Options,
    indent: usize,
    sizes: &[Size],
    index: &mut usize,
)
    requires
        indent + depth(value.view_json()) <= usize::MAX,
        *old(index) + slots(value.view_json()) <= sizes@.len(),
    ensures
        final(f)@ == old(f)@ + print_sized(
            value.view_json(),
            *options,
            indent as nat,
            sizes_view(sizes@),
            *old(index) as int,
        ),
        *final(index) == *old(index) + slots(value.view_json()),
    decreases value,
{
    match value {
        Value::Null => {
            push_chars(f, &['n', 'u', 'l', 'l']);
            assert(['n', 'u', 'l', 'l']@ =~= seq!['n', 'u', 'l', 'l']);
        },
        Value::Boolean(b) => {
            if *b {
                push_chars(f, &['t', 'r', 'u', 'e']);
                assert(['t', 'r', 'u', 'e']@ =~= seq!['t', 'r', 'u', 'e']);
            } else {
                push_chars(f, &['f', 'a', 'l', 's', 'e']);
                assert(['f', 'a', 'l', 's', 'e']@ =~= seq!['f', 'a', 'l', 's', 'e']);
            }
        },
        Value::Number(n) => f.append(n.as_str()),
        Value::String(s) => string_literal(s.as_str(), f),
        Value::Array(a) => print_array(a, f, options, indent, sizes, index),
        Value::Object(o) => print_object(o, f, options, indent, sizes, index),
    }
}

/// Prints the array of the items `items` at the indentation level `indent`,
/// reading the sizes of its arrays and objects from `sizes`, one slot each
/// in pre-order, from `*index` on: a slot that holds `Expanded` expands its
/// array or object on several lines, one that holds a width prints it on
/// one line.
#[verifier::rlimit(40)]
pub fn print_array(
    items: &Vec<Value>,
    f: &mut String,
    options: &Options,
    indent: usize,
    sizes: &[Size],
    index: &mut usize,
)
    requires
        indent + depth(JValue::Array(values_view(items@))) <= usize::MAX,
        *old(index) + slots(JValue::Array(values_view(items@))) <= sizes@.len(),
    ensures
        final(f)@ == old(f)@ + print_sized(
            JValue::Array(values_view(items@)),
            *options,
            indent as nat,
            sizes_view(sizes@),
            *old(index) as int,
        ),
        *final(index) == *old(index) + slots(JValue::Array(values_view(items@))),
    decreases items,
{
    let ghost jv = values_view(items@);
    let ghost o = *options;
    let ghost v = JValue::Array(jv);
    let ghost sv = sizes_view(sizes@);
    let ghost i0 = *index as int;
    proof {
        lemma_values_view(items@);
        assert(sizes[i0]@ == sv[i0]);
        assert(jv.take(0) =~= Seq::<JValue>::empty());
    }
    let size = sizes[*index];
    *index = *index + 1;
    string_push(f, '[');
    if items.len() == 0 {
        match size {
            Size::Expanded => {
                string_push(f, '\n');
                push_indent(f, options.indent, indent);
            },
            Size::Width(_) => push_spaces(f, options.array_empty),
        }
        proof {
            assert(jv.len() == 0);
        }
    } else {
        let expanded = match size {
            Size::Expanded => true,
            Size::Width(_) => false,
        };
        if expanded {
            string_push(f, '\n');
        } else {
            push_spaces(f, options.array_begin);
        }
        let ghost head = f@;
        let mut i: usize = 0;
        while i < items.len()
            invariant
                jv == values_view(items@),
                o == *options,
                v == JValue::Array(jv),
                sv == sizes_view(sizes@),
                jv.len() == items@.len(),
                forall|k: int| 0 <= k < items@.len() ==> #[trigger] items@[k].view_json() == jv[k],
                expanded == (sv[i0] is None),
                i <= items@.len(),
                indent + depth(v) <= usize::MAX,
                0 <= i0,
                i0 + 1 + items_slots(jv) <= sv.len(),
                *index == i0 + 1 + items_slots(jv.take(i as int)),
                expanded ==> f@ == head + items_expanded_sized(
                    jv.take(i as int),
                    o,
                    (indent + 1) as nat,
                    sv,
                    i0 + 1,
                ),
                !expanded ==> f@ == head + items_inline_sized(
                    jv.take(i as int),
                    o,
                    (indent + 1) as nat,
                    sv,
                    i0 + 1,
                ),
            decreases items@.len() - i,
        {
            proof {
                assert(jv.take(i + 1).drop_last() =~= jv.take(i as int));
                assert(jv.take(i + 1)[i as int] == jv[i as int]);
                lemma_items_slots_prefix(jv, i + 1);
                lemma_items_depth(jv, i as int);
            }
            if expanded {
                if i > 0 {
                    push_spaces(f, options.array_before_comma);
                    push_chars(f, &[',', '\n']);
                    assert([',', '\n']@ =~= seq![',', '\n']);
                }
                push_indent(f, options.indent, indent + 1);
            } else if i > 0 {
                push_spaces(f, options.array_before_comma);
                string_push(f, ',');
                push_spaces(f, options.array_after_comma);
            }
            fmt_value_with_size(&items[i], f, options, indent + 1, sizes, index);
            i = i + 1;
            proof {
                if expanded {
                    assert(f@ =~= head + items_expanded_sized(
                        jv.take(i as int),
                        o,
                        (indent + 1) as nat,
                        sv,
                        i0 + 1,
                    ));
                } else {
                    assert(f@ =~= head + items_inline_sized(
                        jv.take(i as int),
                        o,
                        (indent + 1) as nat,
                        sv,
                        i0 + 1,
                    ));
                }
            }
        }
        proof {
            assert(jv.take(jv.len() as int) =~= jv);
        }
        if expanded {
            string_push(f, '\n');
            push_indent(f, options.indent, indent);
        } else {
            push_spaces(f, options.array_end);
        }
    }
    string_push(f, ']');
    proof {
        assert(f@ =~= old(f)@ + print_sized(v, o, indent as nat, sv, i0));
    }
}

/// Prints the object `object` at the indentation level `indent`, reading
/// the sizes of its arrays and objects from `sizes`, one slot each in
/// pre-order, from `*index` on: a slot that holds `Expanded` expands its
/// array or object on several lines, one that holds a width prints it on
/// one line.
#[verifier::rlimit(40)]
pub fn print_object(
    object: &Object,
    f: &mut String,
    options: &Options,
    indent: usize,
    sizes: &[Size],
    index: &mut usize,
)
    requires
        indent + depth(JValue::Object(object.view_json())) <= usize::MAX,
        *old(index) + slots(JValue::Object(object.view_json())) <= sizes@.len(),
    ensures
        final(f)@ == old(f)@ + print_sized(
            JValue::Object(object.view_json()),
            *options,
            indent as nat,
            sizes_view(sizes@),
            *old(index) as int,
        ),
        *final(index) == *old(index) + slots(JValue::Object(object.view_json())),
    decreases object,
{
    let ghost je = object.view_json();
    let ghost o = *options;
    let ghost v = JValue::Object(je);
    let ghost sv = sizes_view(sizes@);
    let ghost i0 = *index as int;
    proof {
        lemma_entries_view(object.entries@);
        assert(sizes[i0]@ == sv[i0]);
        assert(je.take(0) =~= Seq::<(Seq<char>, JValue)>::empty());
    }
    let size = sizes[*index];
    *index = *index + 1;
    string_push(f, '{');
    if object.entries.len() == 0 {
        match size {
            Size::Expanded => {
                string_push(f, '\n');
                push_indent(f, options.indent, indent);
            },
            Size::Width(_) => push_spaces(f, options.object_empty),
        }
        proof {
            assert(je.len() == 0);
        }
    } else {
        let expanded = match size {
            Size::Expanded => true,
            Size::Width(_) => false,
        };
        if expanded {
            string_push(f, '\n');
        } else {
            push_spaces(f, options.object_begin);
        }
        let ghost head = f@;
        let mut i: usize = 0;
        while i < object.entries.len()
            invariant
                je == entries_view(object.entries@),
                o == *options,
                v == JValue::Object(je),
                sv == sizes_view(sizes@),
                je.len() == object.entries@.len(),
                forall|k: int|
                    0 <= k < object.entries@.len() ==> #[trigger] je[k] == (
                        object.entries@[k].key@,
                        object.entries@[k].value.view_json(),
                    ),
                expanded == (sv[i0] is None),
                i <= object.entries@.len(),
                indent + depth(v) <= usize::MAX,
                0 <= i0,
                i0 + 1 + entries_slots(je) <= sv.len(),
                *index == i0 + 1 + entries_slots(je.take(i as int)),
                expanded ==> f@ == head + entries_expanded_sized(
                    je.take(i as int),
                    o,
                    (indent + 1) as nat,
                    sv,
                    i0 + 1,
                ),
                !expanded ==> f@ == head + entries_inline_sized(
                    je.take(i as int),
                    o,
                    (indent + 1) as nat,
                    sv,
                    i0 + 1,
                ),
            decreases object.entries@.len() - i,
        {
            proof {
                assert(je.take(i + 1).drop_last() =~= je.take(i as int));
                assert(je.take(i + 1)[i as int] == je[i as int]);
                lemma_entries_slots_prefix(je, i + 1);
                lemma_entries_depth(je, i as int);
                assert(je[i as int] == (
                    object.entries@[i as int].key@,
                    object.entries@[i as int].value.view_json(),
                ));
            }
            if expanded {
                if i > 0 {
                    push_spaces(f, options.object_before_comma);
                    push_chars(f, &[',', '\n']);
                    assert([',', '\n']@ =~= seq![',', '\n']);
                }
                push_indent(f, options.indent, indent + 1);
            } else if i > 0 {
                push_spaces(f, options.object_before_comma);
                string_push(f, ',');
                push_spaces(f, options.object_after_comma);
            }
            let entry = &object.entries[i];
            let ghost pre_entry = f@;
            let ghost at = *index as int;
            string_literal(entry.key.as_str(), f);
            push_spaces(f, options.object_before_colon);
            string_push(f, ':');
            push_spaces(f, options.object_after_colon);
            proof {
                assert(decreases_to!(object => object.entries));
                assert(decreases_to!(object.entries => object.entries@));
                assert(decreases_to!(object.entries@ => object.entries@[i as int]));
                assert(decreases_to!(object.entries@[i as int] => object.entries@[i as int].value));
            }
            fmt_value_with_size(&entry.value, f, options, indent + 1, sizes, index);
            proof {
                assert(f@ =~= pre_entry + entry_sized(
                    je[i as int].0,
                    je[i as int].1,
                    o,
                    (indent + 1) as nat,
                    sv,
                    at,
                ));
            }
            i = i + 1;
            proof {
                if expanded {
                    assert(f@ =~= head + entries_expanded_sized(
                        je.take(i as int),
                        o,
                        (indent + 1) as nat,
                        sv,
                        i0 + 1,
                    ));
                } else {
                    assert(f@ =~= head + entries_inline_sized(
                        je.take(i as int),
                        o,
                        (indent + 1) as nat,
                        sv,
                        i0 + 1,
                    ));
                }
            }
        }
        proof {
            assert(je.take(je.len() as int) =~= je);
        }
        if expanded {
            string_push(f, '\n');
            push_indent(f, options.indent, indent);
        } else {
            push_spaces(f, options.object_end);
        }
    }
    string_push(f, '}');
    proof {
        assert(f@ =~= old(f)@ + print_sized(v, o, indent as nat, sv, i0));
    }
}

/// `value` can be printed with `options` at the indentation level
/// `indent`: no indentation level and no width computed for it overflows.
pub open spec fn printable(value: JValue, options: Options, indent: nat) -> bool {
    &&& indent + depth(value) <= usize::MAX
    &&& width_bound(value, options) <= usize::MAX
}

/// Printed value: a value with print options and an indentation level.
pub struct Printed<'t, T: ?Sized>(pub &'t T, pub Options, pub usize);

impl<'t, T: Print + ?Sized> Printed<'t, T> {
    /// The text of the printed value.
    pub fn to_string(&self) -> (r: String)
        requires
            self.0.printable(self.1, self.2 as nat),
        ensures
            r@ == self.0.printed(self.1, self.2 as nat),
    {
        let mut out = String::new();
        self.0.fmt_with(&mut out, &self.1, self.2);
        out
    }
}

/// Print methods.
pub trait Print {
    /// `self` can be printed with `options` at the indentation level
    /// `indent`.
    spec fn printable(&self, options: Options, indent: nat) -> bool;

    /// What is printed for `self` with `options` at the indentation level
    /// `indent`.
    spec fn printed(&self, options: Options, indent: nat) -> Seq<char>;

    /// Print the value with `Options::pretty` options.
    fn pretty_print(&self) -> (r: Printed<'_, Self>)
        ensures
            r.0 == self,
            r.1 == pretty_options(),
            r.2 == 0,
    {
        self.print_with(Options::pretty())
    }

    /// Print the value with `Options::compact` options.
    fn compact_print(&self) -> (r: Printed<'_, Self>)
        ensures
            r.0 == self,
            r.1 == compact_options(),
            r.2 == 0,
    {
        self.print_with(Options::compact())
    }

    /// Print the value with `Options::inline` options.
    fn inline_print(&self) -> (r: Printed<'_, Self>)
        ensures
            r.0 == self,
            r.1 == inline_options(),
            r.2 == 0,
    {
        self.print_with(Options::inline())
    }

    /// Print the value with the given options.
    fn print_with(&self, options: Options) -> (r: Printed<'_, Self>)
        ensures
            r.0 == self,
            r.1 == options,
            r.2 == 0,
    {
        Printed(self, options, 0)
    }

    /// Appends the text of `self` to `f`.
    fn fmt_with(&self, f: &mut String, options: &Options, indent: usize)
        requires
            self.printable(*options, indent as nat),
        ensures
            final(f)@ == old(f)@ + self.printed(*options, indent as nat),
    ;
}

impl Print for bool {
    open spec fn printable(&self, options: Options, indent: nat) -> bool {
        true
    }

    open spec fn printed(&self, options: Options, indent: nat) -> Seq<char> {
        print_spec(JValue::Boolean(*self), options, indent)
    }

    fn fmt_with(&self, f: &mut String, _options: &Options, _indent: usize) {
        if *self {
            push_chars(f, &['t', 'r', 'u', 'e']);
            assert(['t', 'r', 'u', 'e']@ =~= seq!['t', 'r', 'u', 'e']);
        } else {
            push_chars(f, &['f', 'a', 'l', 's', 'e']);
            assert(['f', 'a', 'l', 's', 'e']@ =~= seq!['f', 'a', 'l', 's', 'e']);
        }
    }
}

impl Print for NumberBuf {
    open spec fn printable(&self, options: Options, indent: nat) -> bool {
        true
    }

    open spec fn printed(&self, options: Options, indent: nat) -> Seq<char> {
        self@
    }

    fn fmt_with(&self, f: &mut String, _options: &Options, _indent: usize) {
        f.append(self.as_str());
    }
}

impl Print for String {
    open spec fn printable(&self, options: Options, indent: nat) -> bool {
        true
    }

    open spec fn printed(&self, options: Options, indent: nat) -> Seq<char> {
        spec::string_literal(self@)
    }

    fn fmt_with(&self, f: &mut String, _options: &Options, _indent: usize) {
        string_literal(self.as_str(), f)
    }
}

impl Print for Value {
    open spec fn printable(&self, options: Options, indent: nat) -> bool {
        printable(self.view_json(), options, indent)
    }

    open spec fn printed(&self, options: Options, indent: nat) -> Seq<char> {
        print_spec(self.view_json(), options, indent)
    }

    fn fmt_with(&self, f: &mut String, options: &Options, indent: usize) {
        let mut sizes: Vec<Size> = Vec::new();
        pre_compute_size(self, options, &mut sizes);
        let mut index: usize = 0;
        proof {
            assert(sizes_view(Seq::<Size>::empty()) =~= Seq::<Option<int>>::empty());
            assert(sizes_view(sizes@).subrange(0, sizes_spec(self.view_json(), *options).len() as int)
                =~= sizes_view(sizes@));
            lemma_print_sized(self.view_json(), *options, indent as nat, sizes_view(sizes@), 0);
        }
        fmt_value_with_size(self, f, options, indent, sizes.as_slice(), &mut index);
    }
}

impl Value {
    /// The compact text of the value, as its `Display` would write it.
    pub fn to_string(&self) -> (r: String)
        requires
            printable(self.view_json(), compact_options(), 0),
        ensures
            r@ == print_spec(self.view_json(), compact_options(), 0),
    {
        self.compact_print().to_string()
    }
}

/// Printing with pre-computed sizes.
pub trait PrintWithSize {
    /// `self` can be printed with `options` at the indentation level
    /// `indent`.
    spec fn printable_with_size(&self, options: Options, indent: nat) -> bool;

    /// The number of size slots that printing `self` reads.
    spec fn slots_read(&self) -> nat;

    /// What is printed for `self`, the size slots being read from `sizes`
    /// from `at` on.
    spec fn printed_with_size(
        &self,
        options: Options,
        indent: nat,
        sizes: Seq<Option<int>>,
        at: int,
    ) -> Seq<char>;

    /// Appends the text of `self` to `f`, reading the sizes of its arrays
    /// and objects from `sizes`, one slot each in pre-order, from `*index`
    /// on.
    fn fmt_with_size(
        &self,
        f: &mut String,
        options: &Options,
        indent: usize,
        sizes: &[Size],
        index: &mut usize,
    )
        requires
            self.printable_with_size(*options, indent as nat),
            *old(index) + self.slots_read() <= sizes@.len(),
        ensures
            final(f)@ == old(f)@ + self.printed_with_size(
                *options,
                indent as nat,
                sizes_view(sizes@),
                *old(index) as int,
            ),
            *final(index) == *old(index) + self.slots_read(),
    ;
}

impl PrintWithSize for Value {
    open spec fn printable_with_size(&self, options: Options, indent: nat) -> bool {
        indent + depth(self.view_json()) <= usize::MAX
    }

    open spec fn slots_read(&self) -> nat {
        slots(self.view_json())
    }

    open spec fn printed_with_size(
        &self,
        options: Options,
        indent: nat,
        sizes: Seq<Option<int>>,
        at: int,
    ) -> Seq<char> {
        print_sized(self.view_json(), options, indent, sizes, at)
    }

    fn fmt_with_size(
        &self,
        f: &mut String,
        options: &Options,
        indent: usize,
        sizes: &[Size],
        index: &mut usize,
    ) {
        fmt_value_with_size(self, f, options, indent, sizes, index)
    }
}

impl PrintWithSize for Vec<Value> {
    open spec fn printable_with_size(&self, options: Options, indent: nat) -> bool {
        indent + depth(JValue::Array(values_view(self@))) <= usize::MAX
    }

    open spec fn slots_read(&self) -> nat {
        slots(JValue::Array(values_view(self@)))
    }

    open spec fn printed_with_size(
        &self,
        options: Options,
        indent: nat,
        sizes: Seq<Option<int>>,
        at: int,
    ) -> Seq<char> {
        print_sized(JValue::Array(values_view(self@)), options, indent, sizes, at)
    }

    fn fmt_with_size(
        &self,
        f: &mut String,
        options: &Options,
        indent: usize,
        sizes: &[Size],
        index: &mut usize,
    ) {
        print_array(self, f, options, indent, sizes, index)
    }
}

impl PrintWithSize for Object {
    open spec fn printable_with_size(&self, options: Options, indent: nat) -> bool {
        indent + depth(JValue::Object(self.view_json())) <= usize::MAX
    }

    open spec fn slots_read(&self) -> nat {
        slots(JValue::Object(self.view_json()))
    }

    open spec fn printed_with_size(
        &self,
        options: Options,
        indent: nat,
        sizes: Seq<Option<int>>,
        at: int,
    ) -> Seq<char> {
        print_sized(JValue::Object(self.view_json()), options, indent, sizes, at)
    }

    fn fmt_with_size(
        &self,
        f: &mut String,
        options: &Options,
        indent: usize,
        sizes: &[Size],
        index: &mut usize,
    ) {
        print_object(self, f, options, indent, sizes, index)
    }
}

/// Pre-computation of the sizes of arrays and objects.
pub trait PrecomputeSize {
    /// No width computed for `self` overflows.
    spec fn size_computable(&self, options: Options) -> bool;

    /// The size of `self`.
    spec fn computed_size(&self, options: Options) -> Option<int>;

    /// The sizes of the arrays and objects of `self`, in pre-order.
    spec fn computed_sizes(&self, options: Options) -> Seq<Option<int>>;

    /// Computes the size of `self`, and appends the sizes of its arrays and
    /// objects, in pre-order, to `sizes`.
    fn pre_compute_size(&self, options: &Options, sizes: &mut Vec<Size>) -> (r: Size)
        requires
            self.size_computable(*options),
        ensures
            r@ == self.computed_size(*options),
            sizes_view(final(sizes)@) == sizes_view(old(sizes)@) + self.computed_sizes(*options),
    ;
}

impl PrecomputeSize for bool {
    open spec fn size_computable(&self, options: Options) -> bool {
        true
    }

    open spec fn computed_size(&self, options: Options) -> Option<int> {
        size_spec(JValue::Boolean(*self), options)
    }

    open spec fn computed_sizes(&self, options: Options) -> Seq<Option<int>> {
        Seq::empty()
    }

    fn pre_compute_size(&self, _options: &Options, sizes: &mut Vec<Size>) -> (r: Size) {
        proof {
            assert(sizes_view(sizes@) + Seq::<Option<int>>::empty() =~= sizes_view(sizes@));
        }
        if *self {
            Size::Width(4)
        } else {
            Size::Width(5)
        }
    }
}

impl PrecomputeSize for Value {
    open spec fn size_computable(&self, options: Options) -> bool {
        width_bound(self.view_json(), options) <= usize::MAX
    }

    open spec fn computed_size(&self, options: Options) -> Option<int> {
        size_spec(self.view_json(), options)
    }

    open spec fn computed_sizes(&self, options: Options) -> Seq<Option<int>> {
        sizes_spec(self.view_json(), options)
    }

    fn pre_compute_size(&self, options: &Options, sizes: &mut Vec<Size>) -> (r: Size) {
        pre_compute_size(self, options, sizes)
    }
}

} // verus!
