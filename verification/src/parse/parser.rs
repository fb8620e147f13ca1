//! The parser: reads the input characters, builds the value and the code-map.
use vstd::prelude::*;
use crate::code_map::{CodeMap, Entry, Span};
use crate::number::{
    NumberBuf, NumberState, number_transition, number_state_final, number_step,
    number_state_is_final, number_run, is_json_number, lemma_number_run_push, is_digit,
};
use crate::value::{Value, JValue, values_view};
use crate::object::{Object, Entry as ObjectEntry};
use super::{Options, Context, Error, is_whitespace, follows_exec, utf8_error};
use super::machine::{SFrame, frames_context};
use super::grammar::{
    follows, Input, PErr, SEntry, Frag, ArrCont, ObjCont, byte_offset, utf8_width, is_ws, is_control,
    hex_value, char_of, simple_escape, replacement_char, surrogate_pair, placeholder,
};

verus! {

pub open spec fn entry_bytes(s: Seq<char>, e: SEntry) -> Entry {
    Entry {
        span: Span { start: byte_offset(s, e.start) as usize, end: byte_offset(s, e.end) as usize },
        volume: e.volume as usize,
    }
}

/// The code-map `cm`, with byte offsets.
pub open spec fn code_map_bytes(s: Seq<char>, cm: Seq<SEntry>) -> Seq<Entry> {
    cm.map_values(|e: SEntry| entry_bytes(s, e))
}

/// The parse error `e`, with byte offsets.
pub open spec fn error_bytes(s: Seq<char>, e: PErr) -> Error<()> {
    match e {
        PErr::Stream(k) => Error::Stream(byte_offset(s, k) as usize, ()),
        PErr::Unexpected(k, c) => Error::Unexpected(byte_offset(s, k) as usize, c),
        PErr::InvalidUnicodeCodePoint(a, b, cp) => Error::InvalidUnicodeCodePoint(
            Span { start: byte_offset(s, a) as usize, end: byte_offset(s, b) as usize },
            cp,
        ),
        PErr::MissingLowSurrogate(a, b, h) => Error::MissingLowSurrogate(
            Span { start: byte_offset(s, a) as usize, end: byte_offset(s, b) as usize },
            h,
        ),
        PErr::InvalidLowSurrogate(a, b, h, l) => Error::InvalidLowSurrogate(
            Span { start: byte_offset(s, a) as usize, end: byte_offset(s, b) as usize },
            h,
            l,
        ),
    }
}

pub proof fn lemma_byte_offset_mono(s: Seq<char>, i: int, j: int)
    requires
        0 <= i <= j <= s.len(),
    ensures
        byte_offset(s, i) <= byte_offset(s, j),
    decreases j - i,
{
    if i < j {
        lemma_byte_offset_mono(s, i, j - 1);
    }
}

pub proof fn lemma_code_map_bytes_push(s: Seq<char>, cm: Seq<SEntry>, e: SEntry)
    ensures
        code_map_bytes(s, cm.push(e)) == code_map_bytes(s, cm).push(entry_bytes(s, e)),
{
    assert(code_map_bytes(s, cm.push(e)) =~= code_map_bytes(s, cm).push(entry_bytes(s, e)));
}

pub proof fn lemma_code_map_bytes_add(s: Seq<char>, a: Seq<SEntry>, b: Seq<SEntry>)
    ensures
        code_map_bytes(s, a + b) == code_map_bytes(s, a) + code_map_bytes(s, b),
{
    assert(code_map_bytes(s, a + b) =~= code_map_bytes(s, a) + code_map_bytes(s, b));
}

pub proof fn lemma_code_map_bytes_update(s: Seq<char>, a: Seq<SEntry>, i: int, e: SEntry)
    requires
        0 <= i < a.len(),
    ensures
        code_map_bytes(s, a.update(i, e)) == code_map_bytes(s, a).update(i, entry_bytes(s, e)),
{
    assert(code_map_bytes(s, a.update(i, e)) =~= code_map_bytes(s, a).update(
        i,
        entry_bytes(s, e),
    ));
}

/// Number of bytes of the UTF-8 encoding of `c`.
pub fn char_width(c: char) -> (r: usize)
    ensures
        r == utf8_width(c),
{
    let u = c as u32;
    if u < 0x80 {
        1
    } else if u < 0x800 {
        2
    } else if u < 0x10000 {
        3
    } else {
        4
    }
}

/// `char::from_u32`: the character of code point `cp`, if `cp` is a Unicode
/// scalar value (below `0xd800`, or from `0xe000` to `0x10ffff`).
#[verifier::external_body]
pub(crate) fn char_from_u32(cp: u32) -> (r: Option<char>)
    ensures
        r == char_of(cp),
{
    char::from_u32(cp)
}

/// `String::push`: appends the character `c`.
#[verifier::external_body]
pub(crate) fn string_push(s: &mut String, c: char)
    ensures
        final(s)@ == old(s)@.push(c),
{
    s.push(c)
}

/// Value of the hexadecimal digit `c`.
pub fn hex_digit(c: char) -> (r: Option<u32>)
    ensures
        r == hex_value(c),
{
    if '0' <= c && c <= '9' {
        Some(c as u32 - '0' as u32)
    } else if 'a' <= c && c <= 'f' {
        Some(c as u32 - 'a' as u32 + 10)
    } else if 'A' <= c && c <= 'F' {
        Some(c as u32 - 'A' as u32 + 10)
    } else {
        None
    }
}

/// The character of the simple escape sequence `\\e`, if any.
pub fn escape_char(e: char) -> (r: Option<char>)
    ensures
        r == simple_escape(e),
{
    if e == '"' || e == '\\' || e == '/' {
        Some(e)
    } else if e == 'b' {
        Some('\u{0008}')
    } else if e == 't' {
        Some('\u{0009}')
    } else if e == 'n' {
        Some('\u{000a}')
    } else if e == 'f' {
        Some('\u{000c}')
    } else if e == 'r' {
        Some('\u{000d}')
    } else {
        None
    }
}

/// What the parser found at the start of a fragment.
pub enum Fragment {
    /// A whole value.
    Value(Value),
    /// `[`: the code-map offset of the array.
    BeginArray(usize),
    /// `{`: the code-map offset of the object, the first key and the
    /// code-map offset of the first entry.
    BeginObject(usize, String, usize),
}

/// An open array or object of the parser's stack.
pub enum StackItem {
    /// Array after an item.
    Array(Vec<Value>, usize),
    /// Array waiting for an item.
    ArrayItem(Vec<Value>, usize),
    /// Object after an entry.
    Object(Object, usize),
    /// Object waiting for the value of the entry with the given key (and
    /// code-map offset).
    ObjectEntry(Object, usize, String, usize),
}

pub open spec fn item_matches(item: StackItem, f: SFrame) -> bool {
    match item {
        StackItem::Array(a, i) => f matches SFrame::Array { acc, cmi, .. } && values_view(a@)
            == acc && i == cmi,
        StackItem::ArrayItem(a, i) => f matches SFrame::Array { acc, cmi, .. } && values_view(
            a@,
        ) == acc && i == cmi,
        StackItem::Object(o, i) => f matches SFrame::Object { acc, cmi, .. } && o.view_json()
            == acc && i == cmi,
        StackItem::ObjectEntry(o, i, k, e) => f matches SFrame::Object { acc, cmi, key, ecmi, .. }
            && o.view_json() == acc && i == cmi && k@ == key && e == ecmi,
    }
}

pub open spec fn push_opt(st: Seq<StackItem>, item: Option<StackItem>) -> Seq<StackItem> {
    match item {
        Some(it) => st.push(it),
        None => st,
    }
}

pub open spec fn item_is_continue(item: StackItem) -> bool {
    item is Array || item is Object
}

/// The code-map offsets of the frame are placeholders' positions.
pub open spec fn frame_ok(f: SFrame, cm: Seq<SEntry>) -> bool {
    match f {
        SFrame::Array { start, cmi, .. } => 0 <= cmi < cm.len() && cm[cmi].start == start,
        SFrame::Object { start, cmi, ks, ecmi, .. } => 0 <= cmi < cm.len() && cm[cmi].start
            == start && 0 <= ecmi < cm.len() && cm[ecmi].start == ks,
    }
}

pub open spec fn frames_wf(frames: Seq<SFrame>, cm: Seq<SEntry>) -> bool {
    forall|i: int| 0 <= i < frames.len() ==> frame_ok(#[trigger] frames[i], cm)
}

pub proof fn lemma_frames_wf_push_cm(frames: Seq<SFrame>, cm: Seq<SEntry>, extra: Seq<SEntry>)
    requires
        frames_wf(frames, cm),
    ensures
        frames_wf(frames, cm + extra),
{
    assert forall|i: int| 0 <= i < frames.len() implies frame_ok(#[trigger] frames[i], cm + extra) by {
        assert(frame_ok(frames[i], cm));
    }
}

pub proof fn lemma_frames_wf_update_cm(frames: Seq<SFrame>, cm: Seq<SEntry>, j: int, e: SEntry)
    requires
        frames_wf(frames, cm),
        0 <= j < cm.len(),
        cm[j].start == e.start,
    ensures
        frames_wf(frames, cm.update(j, e)),
{
    assert forall|i: int| 0 <= i < frames.len() implies frame_ok(
        #[trigger] frames[i],
        cm.update(j, e),
    ) by {
        assert(frame_ok(frames[i], cm));
    }
}

pub proof fn lemma_frames_wf_pop(frames: Seq<SFrame>, cm: Seq<SEntry>)
    requires
        frames_wf(frames, cm),
        frames.len() > 0,
    ensures
        frames_wf(frames.drop_last(), cm),
        frame_ok(frames.last(), cm),
{
    assert forall|i: int| 0 <= i < frames.drop_last().len() implies frame_ok(
        #[trigger] frames.drop_last()[i],
        cm,
    ) by {
        assert(frames.drop_last()[i] == frames[i]);
    }
    assert(frame_ok(frames[frames.len() - 1], cm));
}

pub proof fn lemma_frames_wf_push(frames: Seq<SFrame>, cm: Seq<SEntry>, f: SFrame)
    requires
        frames_wf(frames, cm),
        frame_ok(f, cm),
    ensures
        frames_wf(frames.push(f), cm),
{
    assert forall|i: int| 0 <= i < frames.push(f).len() implies frame_ok(
        #[trigger] frames.push(f)[i],
        cm,
    ) by {
        if i < frames.len() {
            assert(frames.push(f)[i] == frames[i]);
        }
    }
}

pub open spec fn stack_matches(st: Seq<StackItem>, fr: Seq<SFrame>) -> bool {
    &&& st.len() == fr.len()
    &&& forall|i: int| 0 <= i < fr.len() ==> item_matches(#[trigger] st[i], fr[i])
    &&& forall|i: int| 0 <= i < fr.len() - 1 ==> !item_is_continue(#[trigger] st[i])
}

pub proof fn lemma_stack_pop(st: Seq<StackItem>, fr: Seq<SFrame>)
    requires
        stack_matches(st, fr),
        fr.len() > 0,
    ensures
        stack_matches(st.drop_last(), fr.drop_last()),
        item_matches(st.last(), fr.last()),
{
    assert(item_matches(st[st.len() - 1], fr[fr.len() - 1]));
    assert forall|i: int| 0 <= i < fr.drop_last().len() implies item_matches(
        #[trigger] st.drop_last()[i],
        fr.drop_last()[i],
    ) by {
        assert(item_matches(st[i], fr[i]));
    }
    assert forall|i: int| 0 <= i < fr.drop_last().len() - 1 implies !item_is_continue(
        #[trigger] st.drop_last()[i],
    ) by {
        assert(!item_is_continue(st[i]));
    }
}

pub proof fn lemma_stack_push(st: Seq<StackItem>, fr: Seq<SFrame>, item: StackItem, f: SFrame)
    requires
        stack_matches(st, fr),
        item_matches(item, f),
        fr.len() > 0 ==> !item_is_continue(st.last()),
    ensures
        stack_matches(st.push(item), fr.push(f)),
{
    assert forall|i: int| 0 <= i < fr.push(f).len() implies item_matches(
        #[trigger] st.push(item)[i],
        fr.push(f)[i],
    ) by {
        if i < fr.len() {
            assert(item_matches(st[i], fr[i]));
        }
    }
    assert forall|i: int| 0 <= i < fr.push(f).len() - 1 implies !item_is_continue(
        #[trigger] st.push(item)[i],
    ) by {
        if i < fr.len() - 1 {
            assert(!item_is_continue(st[i]));
        } else {
            assert(st.push(item)[i] == st.last());
        }
    }
}


/// Opening an array through the stack.
pub proof fn lemma_step_begin_array(inp: Input, frames: Seq<SFrame>, k: int, cm: Seq<SEntry>)
    requires
        0 <= k,
        frames_wf(frames, cm),
        inp.fragment(k, frames_context(frames)) is Ok,
        inp.fragment(k, frames_context(frames))->Ok_0 is BeginArray,
    ensures
        ({
            let f = inp.fragment(k, frames_context(frames))->Ok_0;
            let nf = SFrame::Array { start: f->BeginArray_0, acc: Seq::empty(), cmi: cm.len() as int };
            &&& inp.need_value(frames, k, cm) == inp.need_value(
                frames.push(nf),
                f->BeginArray_1,
                cm.push(placeholder(f->BeginArray_0)),
            )
            &&& frames_wf(frames.push(nf), cm.push(placeholder(f->BeginArray_0)))
        }),
{
    let f = inp.fragment(k, frames_context(frames))->Ok_0;
    let (fj, fnext) = (f->BeginArray_0, f->BeginArray_1);
    inp.lemma_fragment_progress(k, frames_context(frames));
    inp.lemma_items_stack(frames, fj, fnext, Seq::empty(), cm, Seq::empty());
    assert(cm + seq![placeholder(fj)] + Seq::<SEntry>::empty() =~= cm.push(placeholder(fj)));
    assert(cm + seq![placeholder(fj)] =~= cm.push(placeholder(fj)));
    lemma_frames_wf_push_cm(frames, cm, seq![placeholder(fj)]);
    let nf = SFrame::Array { start: fj, acc: Seq::empty(), cmi: cm.len() as int };
    lemma_frames_wf_push(frames, cm.push(placeholder(fj)), nf);
}

pub open spec fn begin_object_extra(f: Frag) -> Seq<SEntry> {
    seq![
        placeholder(f->BeginObject_0),
        placeholder(f->BeginObject_2),
        SEntry { start: f->BeginObject_2, end: f->BeginObject_3, volume: 1 },
    ]
}

pub open spec fn begin_object_frame(f: Frag, cm: Seq<SEntry>) -> SFrame {
    SFrame::Object {
        start: f->BeginObject_0,
        acc: Seq::empty(),
        cmi: cm.len() as int,
        key: f->BeginObject_1,
        ks: f->BeginObject_2,
        ke: f->BeginObject_3,
        ecmi: cm.len() + 1int,
    }
}

/// Opening an object through the stack.
pub proof fn lemma_step_begin_object(inp: Input, frames: Seq<SFrame>, k: int, cm: Seq<SEntry>)
    requires
        0 <= k,
        frames_wf(frames, cm),
        inp.fragment(k, frames_context(frames)) is Ok,
        inp.fragment(k, frames_context(frames))->Ok_0 is BeginObject,
    ensures
        ({
            let f = inp.fragment(k, frames_context(frames))->Ok_0;
            let nf = begin_object_frame(f, cm);
            &&& inp.need_value(frames, k, cm) == inp.need_value(
                frames.push(nf),
                f->BeginObject_4,
                cm + begin_object_extra(f),
            )
            &&& frames_wf(frames.push(nf), cm + begin_object_extra(f))
        }),
{
    let f = inp.fragment(k, frames_context(frames))->Ok_0;
    let (fj, fkey, fks, fke, fnext) = (
        f->BeginObject_0,
        f->BeginObject_1,
        f->BeginObject_2,
        f->BeginObject_3,
        f->BeginObject_4,
    );
    inp.lemma_fragment_progress(k, frames_context(frames));
    inp.lemma_members_stack(frames, fj, fkey, fks, fke, fnext, Seq::empty(), cm, Seq::empty());
    let extra = begin_object_extra(f);
    assert(cm + seq![placeholder(fj)] + Seq::<SEntry>::empty() + seq![
        placeholder(fks),
        SEntry { start: fks, end: fke, volume: 1 },
    ] =~= cm + extra);
    lemma_frames_wf_push_cm(frames, cm, extra);
    lemma_frames_wf_push(frames, cm + extra, begin_object_frame(f, cm));
}

/// A whole value read where a value is expected.
pub proof fn lemma_step_whole(inp: Input, frames: Seq<SFrame>, k: int, cm: Seq<SEntry>)
    requires
        0 <= k,
        frames_wf(frames, cm),
        inp.fragment(k, frames_context(frames)) is Ok,
        inp.fragment(k, frames_context(frames))->Ok_0 is Whole,
    ensures
        ({
            let f = inp.fragment(k, frames_context(frames))->Ok_0;
            let se = SEntry { start: f->Whole_1, end: f->Whole_2, volume: 1 };
            &&& inp.need_value(frames, k, cm) == inp.resume(frames, f->Whole_0, f->Whole_2, cm.push(se))
            &&& frames_wf(frames, cm.push(se))
        }),
{
    let f = inp.fragment(k, frames_context(frames))->Ok_0;
    let se = SEntry { start: f->Whole_1, end: f->Whole_2, volume: 1 };
    assert(cm + seq![se] =~= cm.push(se));
    lemma_frames_wf_push_cm(frames, cm, seq![se]);
}

/// The end of the array on top of the stack.
pub proof fn lemma_step_close(inp: Input, frames: Seq<SFrame>, k: int, cm: Seq<SEntry>, n: int)
    requires
        frames_wf(frames, cm),
        frames.len() > 0,
        0 <= k,
    ensures
        ({
            let top = frames.last();
            let start = match top { SFrame::Array { start, .. } => start, SFrame::Object { start, .. } => start };
            let cmi = match top { SFrame::Array { cmi, .. } => cmi, SFrame::Object { cmi, .. } => cmi };
            let upd = SEntry { start, end: n, volume: cm.len() - cmi };
            &&& 0 <= cmi < cm.len()
            &&& cm[cmi].start == start
            &&& frames_wf(frames.drop_last(), cm.update(cmi, upd))
        }),
{
    let top = frames.last();
    lemma_frames_wf_pop(frames, cm);
    let start = match top { SFrame::Array { start, .. } => start, SFrame::Object { start, .. } => start };
    let cmi = match top { SFrame::Array { cmi, .. } => cmi, SFrame::Object { cmi, .. } => cmi };
    let upd = SEntry { start, end: n, volume: cm.len() - cmi };
    lemma_frames_wf_update_cm(frames.drop_last(), cm, cmi, upd);
}

/// A value delivered to the object on top of the stack.
pub proof fn lemma_step_deliver_object(inp: Input, frames: Seq<SFrame>, v: JValue, e: int, cm: Seq<SEntry>)
    requires
        frames_wf(frames, cm),
        frames.len() > 0,
        frames.last() is Object,
    ensures
        ({
            let top = frames.last();
            let ecmi = top->Object_ecmi;
            let upd = SEntry { start: top->Object_ks, end: e, volume: cm.len() - ecmi };
            let nf = SFrame::Object {
                start: top->Object_start,
                acc: top->Object_acc.push((top->Object_key, v)),
                cmi: top->Object_cmi,
                key: top->Object_key,
                ks: top->Object_ks,
                ke: top->Object_ke,
                ecmi,
            };
            &&& 0 <= ecmi < cm.len()
            &&& cm[ecmi].start == top->Object_ks
            &&& inp.resume(frames, v, e, cm) == inp.continue_frame(frames.drop_last().push(nf), e, cm.update(ecmi, upd))
            &&& frames_wf(frames.drop_last().push(nf), cm.update(ecmi, upd))
        }),
{
    let top = frames.last();
    let ecmi = top->Object_ecmi;
    let upd = SEntry { start: top->Object_ks, end: e, volume: cm.len() - ecmi };
    let nf = SFrame::Object {
        start: top->Object_start,
        acc: top->Object_acc.push((top->Object_key, v)),
        cmi: top->Object_cmi,
        key: top->Object_key,
        ks: top->Object_ks,
        ke: top->Object_ke,
        ecmi,
    };
    lemma_frames_wf_pop(frames, cm);
    lemma_frames_wf_update_cm(frames.drop_last(), cm, ecmi, upd);
    lemma_frames_wf_push(frames.drop_last(), cm.update(ecmi, upd), nf);
}

/// A value delivered to the array on top of the stack.
pub proof fn lemma_step_deliver_array(inp: Input, frames: Seq<SFrame>, v: JValue, e: int, cm: Seq<SEntry>)
    requires
        frames_wf(frames, cm),
        frames.len() > 0,
        frames.last() is Array,
    ensures
        ({
            let top = frames.last();
            let nf = SFrame::Array { start: top->Array_start, acc: top->Array_acc.push(v), cmi: top->Array_cmi };
            &&& inp.resume(frames, v, e, cm) == inp.continue_frame(frames.drop_last().push(nf), e, cm)
            &&& frames_wf(frames.drop_last().push(nf), cm)
        }),
{
    let top = frames.last();
    let nf = SFrame::Array { start: top->Array_start, acc: top->Array_acc.push(v), cmi: top->Array_cmi };
    lemma_frames_wf_pop(frames, cm);
    lemma_frames_wf_push(frames.drop_last(), cm, nf);
}

/// JSON parser.
pub struct Parser<'a> {
    /// Character stream.
    chars: &'a [char],
    /// Whether the character stream fails after its last character.
    stream_error: bool,
    /// Index of the next character.
    index: usize,
    /// Byte position in the stream.
    position: usize,
    /// Parser options.
    options: Options,
    /// Code-map.
    code_map: CodeMap,
}

impl<'a> Parser<'a> {
    pub closed spec fn input(&self) -> Input {
        Input { chars: self.chars@, stream_error: self.stream_error, options: self.options }
    }

    pub closed spec fn wf(&self) -> bool {
        &&& self.index <= self.chars@.len()
        &&& self.position == byte_offset(self.chars@, self.index as int)
        &&& byte_offset(self.chars@, self.chars@.len() as int) <= usize::MAX
    }

    pub closed spec fn index_spec(&self) -> int {
        self.index as int
    }

    pub closed spec fn code_map_spec(&self) -> Seq<Entry> {
        self.code_map@
    }

    pub closed spec fn same_input(&self, other: &Parser) -> bool {
        self.chars@ == other.chars@ && self.stream_error == other.stream_error && self.options
            == other.options
    }

    pub fn new_with(chars: &'a [char], stream_error: bool, options: Options) -> (r: Parser<'a>)
        requires
            byte_offset(chars@, chars@.len() as int) <= usize::MAX,
        ensures
            r.wf(),
            r.index_spec() == 0,
            r.code_map_spec() == Seq::<Entry>::empty(),
            r.input() == (Input { chars: chars@, stream_error, options }),
    {
        Parser { chars, stream_error, index: 0, position: 0, options, code_map: CodeMap::new() }
    }

    fn begin_fragment(&mut self) -> (r: usize)
        requires
            old(self).wf(),
        ensures
            final(self).wf(),
            final(self).same_input(old(self)),
            final(self).index == old(self).index,
            r == old(self).code_map@.len(),
            final(self).code_map@ == old(self).code_map@.push(
                entry_bytes(old(self).chars@, placeholder(old(self).index as int)),
            ),
    {
        self.code_map.reserve(self.position)
    }

    fn end_fragment(&mut self, i: usize)
        requires
            old(self).wf(),
            i < old(self).code_map@.len(),
        ensures
            final(self).wf(),
            final(self).same_input(old(self)),
            final(self).index == old(self).index,
            final(self).code_map@ == old(self).code_map@.update(
                i as int,
                Entry {
                    span: Span {
                        start: old(self).code_map@[i as int].span.start,
                        end: old(self).position,
                    },
                    volume: (old(self).code_map@.len() - i) as usize,
                },
            ),
    {
        self.code_map.finish(i, self.position)
    }

    fn peek_char(&self) -> (r: Result<Option<char>, Error<()>>)
        requires
            self.wf(),
        ensures
            self.index < self.chars@.len() ==> r == Ok::<Option<char>, Error<()>>(
                Some(self.chars@[self.index as int]),
            ),
            self.index >= self.chars@.len() && self.stream_error ==> r == Err::<
                Option<char>,
                Error<()>,
            >(error_bytes(self.chars@, PErr::Stream(self.index as int))),
            self.index >= self.chars@.len() && !self.stream_error ==> r == Ok::<
                Option<char>,
                Error<()>,
            >(None),
    {
        if self.index < self.chars.len() {
            Ok(Some(self.chars[self.index]))
        } else if self.stream_error {
            Err(Error::Stream(self.position, ()))
        } else {
            Ok(None)
        }
    }

    fn next_char(&mut self) -> (r: Result<(usize, Option<char>), Error<()>>)
        requires
            old(self).wf(),
        ensures
            final(self).wf(),
            final(self).same_input(old(self)),
            final(self).code_map@ == old(self).code_map@,
            old(self).index < old(self).chars@.len() ==> final(self).index == old(self).index + 1
                && r == Ok::<(usize, Option<char>), Error<()>>(
                (old(self).position, Some(old(self).chars@[old(self).index as int])),
            ),
            old(self).index >= old(self).chars@.len() ==> final(self).index == old(self).index,
            old(self).index >= old(self).chars@.len() && old(self).stream_error ==> r == Err::<
                (usize, Option<char>),
                Error<()>,
            >(error_bytes(old(self).chars@, PErr::Stream(old(self).index as int))),
            old(self).index >= old(self).chars@.len() && !old(self).stream_error ==> r == Ok::<
                (usize, Option<char>),
                Error<()>,
            >((old(self).position, None)),
    {
        if self.index < self.chars.len() {
            let c = self.chars[self.index];
            let p = self.position;
            proof {
                lemma_byte_offset_mono(self.chars@, self.index + 1, self.chars@.len() as int);
            }
            self.position = self.position + char_width(c);
            self.index = self.index + 1;
            Ok((p, Some(c)))
        } else if self.stream_error {
            Err(Error::Stream(self.position, ()))
        } else {
            Ok((self.position, None))
        }
    }

    fn skip_whitespaces(&mut self) -> (r: Result<(), Error<()>>)
        requires
            old(self).wf(),
        ensures
            final(self).wf(),
            final(self).same_input(old(self)),
            final(self).code_map@ == old(self).code_map@,
            match old(self).input().skip_ws(old(self).index as int) {
                Ok(j) => r is Ok && final(self).index == j,
                Err(e) => r == Err::<(), Error<()>>(error_bytes(old(self).chars@, e)),
            },
    {
        loop
            invariant
                self.wf(),
                self.same_input(old(self)),
                self.code_map@ == old(self).code_map@,
                old(self).index <= self.index,
                old(self).input().skip_ws(old(self).index as int) == self.input().skip_ws(
                    self.index as int,
                ),
            decreases self.chars@.len() - self.index,
        {
            match self.peek_char() {
                Err(e) => return Err(e),
                Ok(Some(c)) => {
                    if is_whitespace(c) {
                        let _ = self.next_char();
                    } else {
                        return Ok(());
                    }
                },
                Ok(None) => return Ok(()),
            }
        }
    }

    /// Reads the word `w`.
    fn expect_word(&mut self, w: &[char]) -> (r: Result<(), Error<()>>)
        requires
            old(self).wf(),
        ensures
            final(self).wf(),
            final(self).same_input(old(self)),
            final(self).code_map@ == old(self).code_map@,
            match old(self).input().literal(old(self).index as int, w@, 0) {
                Ok(end) => r is Ok && final(self).index == end,
                Err(e) => r == Err::<(), Error<()>>(error_bytes(old(self).chars@, e)),
            },
    {
        let ghost start = self.index as int;
        let mut t: usize = 0;
        while t < w.len()
            invariant
                self.wf(),
                self.same_input(old(self)),
                self.code_map@ == old(self).code_map@,
                t <= w@.len(),
                self.index == start + t,
                start == old(self).index,
                old(self).input().literal(start, w@, 0) == self.input().literal(start, w@, t as int),
            decreases w@.len() - t,
        {
            let ghost before = self.index as int;
            match self.next_char() {
                Err(e) => return Err(e),
                Ok((p, c)) => {
                    match c {
                        Some(c) => {
                            if c != w[t] {
                                return Err(Error::Unexpected(p, Some(c)));
                            }
                        },
                        None => return Err(Error::Unexpected(p, None)),
                    }
                },
            }
            t = t + 1;
        }
        Ok(())
    }

    /// Reads a number (in the context `ctx`).
    fn parse_number(&mut self, ctx: Context) -> (r: Result<NumberBuf, Error<()>>)
        requires
            old(self).wf(),
        ensures
            final(self).wf(),
            final(self).same_input(old(self)),
            final(self).code_map@ == old(self).code_map@,
            match old(self).input().number(old(self).index as int, NumberState::Init, ctx) {
                Ok(end) => r matches Ok(n) && n@ == old(self).chars@.subrange(
                    old(self).index as int,
                    end,
                ) && final(self).index == end,
                Err(e) => r == Err::<NumberBuf, Error<()>>(error_bytes(old(self).chars@, e)),
            },
    {
        let ghost start = self.index as int;
        let mut buffer = String::new();
        let mut state = NumberState::Init;
        proof {
            assert(old(self).chars@.subrange(start, start) =~= Seq::<char>::empty());
        }
        loop
            invariant
                self.wf(),
                self.same_input(old(self)),
                self.code_map@ == old(self).code_map@,
                start == old(self).index,
                start <= self.index,
                buffer@ == self.chars@.subrange(start, self.index as int),
                number_run(NumberState::Init, buffer@) == Some(state),
                old(self).input().number(start, NumberState::Init, ctx) == self.input().number(
                    self.index as int,
                    state,
                    ctx,
                ),
            ensures
                (self.index >= self.chars@.len() && !self.stream_error) || (self.index
                    < self.chars@.len() && number_step(state, self.chars@[self.index as int])
                    is None && number_state_is_final(state) && follows(
                    ctx,
                    self.chars@[self.index as int],
                )),
            decreases self.chars@.len() - self.index,
        {
            match self.peek_char() {
                Err(e) => return Err(e),
                Ok(None) => break,
                Ok(Some(c)) => match number_transition(state, c) {
                    Some(next) => {
                        proof {
                            lemma_number_run_push(NumberState::Init, buffer@, c);
                            assert(self.chars@.subrange(start, self.index + 1) =~= buffer@.push(c));
                        }
                        string_push(&mut buffer, c);
                        let _ = self.next_char();
                        state = next;
                    },
                    None => {
                        if number_state_final(state) && follows_exec(ctx, c) {
                            break;
                        } else {
                            return Err(Error::Unexpected(self.position, Some(c)));
                        }
                    },
                },
            }
        }
        if number_state_final(state) {
            Ok(NumberBuf::from_lexical(buffer))
        } else {
            Err(Error::Unexpected(self.position, None))
        }
    }

    /// Reads four hexadecimal digits.
    fn parse_hex4(&mut self) -> (r: Result<u32, Error<()>>)
        requires
            old(self).wf(),
        ensures
            final(self).wf(),
            final(self).same_input(old(self)),
            final(self).code_map@ == old(self).code_map@,
            match old(self).input().hex(old(self).index as int, 4, 0) {
                Ok(cp) => r == Ok::<u32, Error<()>>(cp) && final(self).index == old(self).index + 4,
                Err(e) => r == Err::<u32, Error<()>>(error_bytes(old(self).chars@, e)),
            },
    {
        let mut acc: u32 = 0;
        let mut t: usize = 0;
        while t < 4
            invariant
                self.wf(),
                self.same_input(old(self)),
                self.code_map@ == old(self).code_map@,
                t <= 4,
                self.index == old(self).index + t,
                old(self).input().hex(old(self).index as int, 4, 0) == self.input().hex(
                    self.index as int,
                    (4 - t) as nat,
                    acc,
                ),
            decreases 4 - t,
        {
            match self.next_char() {
                Err(e) => return Err(e),
                Ok((p, None)) => return Err(Error::Unexpected(p, None)),
                Ok((p, Some(c))) => match hex_digit(c) {
                    Some(d) => {
                        acc = (acc << 4u32) | d;
                    },
                    None => return Err(Error::Unexpected(p, Some(c))),
                },
            }
            t = t + 1;
        }
        Ok(acc)
    }

    /// Reads the content of a string literal, after the opening quote.
    #[verifier::rlimit(60)]
    fn parse_string_content(&mut self) -> (r: Result<String, Error<()>>)
        requires
            old(self).wf(),
        ensures
            final(self).wf(),
            final(self).same_input(old(self)),
            final(self).code_map@ == old(self).code_map@,
            match old(self).input().string(old(self).index as int, Seq::empty(), None) {
                Ok((st, end)) => r matches Ok(res) && res@ == st && final(self).index == end,
                Err(e) => r == Err::<String, Error<()>>(error_bytes(old(self).chars@, e)),
            },
    {
        let ghost inp = self.input();
        let ghost start = self.index as int;
        let mut result = String::new();
        let mut high: Option<(usize, u32)> = None;
        let ghost mut ghigh: Option<(int, u32)> = None;
        let truncated = self.options.accept_truncated_surrogate_pair;
        let invalid = self.options.accept_invalid_codepoints;
        loop
            invariant
                self.wf(),
                self.same_input(old(self)),
                self.code_map@ == old(self).code_map@,
                inp == self.input(),
                inp == old(self).input(),
                start == old(self).index,
                truncated == inp.options.accept_truncated_surrogate_pair,
                invalid == inp.options.accept_invalid_codepoints,
                inp.string(start, Seq::empty(), None) == inp.string(
                    self.index as int,
                    result@,
                    ghigh,
                ),
                match ghigh {
                    None => high is None,
                    Some((ph, h)) => high == Some((byte_offset(inp.chars, ph) as usize, h))
                        && 0xd800 <= h <= 0xdbff && 0 <= ph <= self.index,
                },
            decreases self.chars@.len() - self.index,
        {
            let ghost k = self.index as int;
            let (p, c) = match self.next_char() {
                Err(e) => return Err(e),
                Ok((p, None)) => return Err(Error::Unexpected(p, None)),
                Ok((p, Some(c))) => (p, c),
            };
            proof {
                match ghigh {
                    Some((ph, h)) => lemma_byte_offset_mono(inp.chars, ph, self.chars@.len() as int),
                    None => {},
                }
            }
            if c == '"' {
                match high {
                    Some((ph, h)) => {
                        if truncated {
                            string_push(&mut result, '\u{fffd}');
                        } else {
                            return Err(Error::MissingLowSurrogate(Span::new(ph, p), h as u16));
                        }
                    },
                    None => {},
                }
                return Ok(result);
            }
            let ch: char;
            if c == '\\' {
                let (p2, e) = match self.next_char() {
                    Err(x) => return Err(x),
                    Ok((p2, None)) => return Err(Error::Unexpected(p2, None)),
                    Ok((p2, Some(e))) => (p2, e),
                };
                match escape_char(e) {
                    Some(d) => {
                        assert(inp.string(k, result@, ghigh) == inp.string_push(
                            k + 2,
                            result@,
                            ghigh,
                            d,
                        ));
                        ch = d;
                    },
                    None => {
                        if e == 'u' {
                            let cp = match self.parse_hex4() {
                                Err(x) => return Err(x),
                                Ok(cp) => cp,
                            };
                            proof {
                                inp.lemma_hex(k + 2, 4, 0);
                            }
                            let ghost acc0 = result@;
                            let ghost gh0 = ghigh;
                            assert(self.index == k + 6);
                            match high {
                                Some((ph, h)) => {
                                    high = None;
                                    proof {
                                        ghigh = None;
                                    }
                                    if 0xdc00 <= cp && cp <= 0xdfff {
                                        assert(((h - 0xd800) as u32) < 0x400);
                                        assert(((cp - 0xdc00) as u32) < 0x400);
                                        let a = h - 0xd800;
                                        let b = cp - 0xdc00;
                                        assert((a << 10u32 | b) < 0x100000) by (bit_vector)
                                            requires
                                                a < 0x400 && b < 0x400,
                                        ;
                                        let pair = (a << 10u32 | b) + 0x10000;
                                        match char_from_u32(pair) {
                                            Some(cc) => string_push(&mut result, cc),
                                            None => {
                                                if invalid {
                                                    string_push(&mut result, '\u{fffd}');
                                                } else {
                                                    return Err(
                                                        Error::InvalidUnicodeCodePoint(
                                                            Span::new(ph, self.position),
                                                            pair,
                                                        ),
                                                    );
                                                }
                                            },
                                        }
                                    } else if truncated {
                                        assert(inp.string(k, acc0, gh0) == inp.string_codepoint(
                                            k + 1,
                                            k + 6,
                                            acc0.push(replacement_char()),
                                            cp,
                                        ));
                                        string_push(&mut result, '\u{fffd}');
                                        match char_from_u32(cp) {
                                            Some(cc) => string_push(&mut result, cc),
                                            None => {
                                                if invalid {
                                                    string_push(&mut result, '\u{fffd}');
                                                } else {
                                                    return Err(
                                                        Error::InvalidUnicodeCodePoint(
                                                            Span::new(p2, self.position),
                                                            cp,
                                                        ),
                                                    );
                                                }
                                            },
                                        }
                                    } else {
                                        return Err(
                                            Error::InvalidLowSurrogate(
                                                Span::new(p2, self.position),
                                                h as u16,
                                                cp,
                                            ),
                                        );
                                    }
                                },
                                None => {
                                    if 0xd800 <= cp && cp <= 0xdbff {
                                        high = Some((p2, cp));
                                        proof {
                                            ghigh = Some((k + 1, cp));
                                        }
                                    } else {
                                        assert(inp.string(k, acc0, gh0) == inp.string_codepoint(
                                            k + 1,
                                            k + 6,
                                            acc0,
                                            cp,
                                        ));
                                        match char_from_u32(cp) {
                                            Some(cc) => string_push(&mut result, cc),
                                            None => {
                                                if invalid {
                                                    string_push(&mut result, '\u{fffd}');
                                                } else {
                                                    return Err(
                                                        Error::InvalidUnicodeCodePoint(
                                                            Span::new(p2, self.position),
                                                            cp,
                                                        ),
                                                    );
                                                }
                                            },
                                        }
                                    }
                                },
                            }
                            continue ;
                        } else {
                            return Err(Error::Unexpected(p2, Some(e)));
                        }
                    },
                }
            } else if (c as u32) <= 0x1f {
                return Err(Error::Unexpected(p, Some(c)));
            } else {
                assert(inp.string(k, result@, ghigh) == inp.string_push(
                    k + 1,
                    result@,
                    ghigh,
                    c,
                ));
                ch = c;
            }
            match high {
                Some((ph, h)) => {
                    if truncated {
                        high = None;
                        proof {
                            ghigh = None;
                        }
                        string_push(&mut result, '\u{fffd}');
                        string_push(&mut result, ch);
                    } else {
                        return Err(
                            Error::MissingLowSurrogate(Span::new(ph, self.position), h as u16),
                        );
                    }
                },
                None => string_push(&mut result, ch),
            }
        }
    }

    /// Reads a string literal (its first character is at the current
    /// position), as a fragment.
    fn parse_string_fragment(&mut self) -> (r: Result<String, Error<()>>)
        requires
            old(self).wf(),
        ensures
            final(self).wf(),
            final(self).same_input(old(self)),
            match old(self).input().string_at(old(self).index as int) {
                Ok((st, end)) => r matches Ok(res) && res@ == st && final(self).index == end
                    && final(self).code_map@ == old(self).code_map@.push(
                    entry_bytes(
                        old(self).chars@,
                        SEntry { start: old(self).index as int, end, volume: 1 },
                    ),
                ),
                Err(e) => r == Err::<String, Error<()>>(error_bytes(old(self).chars@, e)),
            },
    {
        let i = self.begin_fragment();
        match self.next_char() {
            Err(e) => Err(e),
            Ok((p, Some(c))) => {
                if c == '"' {
                    match self.parse_string_content() {
                        Err(e) => Err(e),
                        Ok(st) => {
                            proof {
                                old(self).input().lemma_string(
                                    old(self).index + 1,
                                    Seq::empty(),
                                    None,
                                );
                            }
                            self.end_fragment(i);
                            proof {
                                assert(self.code_map@ =~= old(self).code_map@.push(
                                    entry_bytes(
                                        old(self).chars@,
                                        SEntry {
                                            start: old(self).index as int,
                                            end: self.index as int,
                                            volume: 1,
                                        },
                                    ),
                                ));
                            }
                            Ok(st)
                        },
                    }
                } else {
                    Err(Error::Unexpected(p, Some(c)))
                }
            },
            Ok((p, None)) => Err(Error::Unexpected(p, None)),
        }
    }

    /// Completes the fragment `i` reserved at `start` for a whole value that
    /// ends here.
    proof fn lemma_whole(old_cm: Seq<Entry>, new_cm: Seq<Entry>, s: Seq<char>, start: int, end: int)
        requires
            new_cm == old_cm.push(entry_bytes(s, placeholder(start))).update(
                old_cm.len() as int,
                Entry {
                    span: Span {
                        start: old_cm.push(entry_bytes(s, placeholder(start)))[old_cm.len() as int].span.start,
                        end: byte_offset(s, end) as usize,
                    },
                    volume: 1,
                },
            ),
        ensures
            new_cm == old_cm.push(entry_bytes(s, SEntry { start, end, volume: 1 })),
    {
        assert(new_cm =~= old_cm.push(entry_bytes(s, SEntry { start, end, volume: 1 })));
    }

    /// Reads the start of a fragment: a whole value, or the opening of an
    /// array or of an object (and its first key).
    #[verifier::rlimit(80)]
    fn parse_fragment(&mut self, ctx: Context) -> (r: Result<Fragment, Error<()>>)
        requires
            old(self).wf(),
        ensures
            final(self).wf(),
            final(self).same_input(old(self)),
            match old(self).input().fragment(old(self).index as int, ctx) {
                Err(e) => r == Err::<Fragment, Error<()>>(error_bytes(old(self).chars@, e)),
                Ok(Frag::Whole(v, j, end)) => r matches Ok(Fragment::Value(val))
                    && val.view_json() == v && final(self).index == end
                    && final(self).code_map@ == old(self).code_map@.push(
                    entry_bytes(old(self).chars@, SEntry { start: j, end, volume: 1 }),
                ),
                Ok(Frag::BeginArray(j, next)) => r matches Ok(Fragment::BeginArray(i))
                    && i == old(self).code_map@.len() && final(self).index == next && final(self).code_map@
                    == old(self).code_map@.push(entry_bytes(old(self).chars@, placeholder(j))),
                Ok(Frag::BeginObject(j, key, ks, ke, next)) => r matches Ok(
                    Fragment::BeginObject(i, k, e),
                ) && i == old(self).code_map@.len() && e == i + 1 && k@ == key
                    && final(self).index == next && final(self).code_map@
                    == old(self).code_map@ + seq![
                    entry_bytes(old(self).chars@, placeholder(j)),
                    entry_bytes(old(self).chars@, placeholder(ks)),
                    entry_bytes(old(self).chars@, SEntry { start: ks, end: ke, volume: 1 }),
                ],
            },
    {
        let ghost inp = self.input();
        let ghost s = self.chars@;
        let ghost old_cm = self.code_map@;
        match self.skip_whitespaces() {
            Err(e) => return Err(e),
            Ok(()) => {},
        }
        let ghost j = self.index as int;
        proof {
            inp.lemma_skip_ws(old(self).index as int);
        }
        let c = match self.peek_char() {
            Err(e) => return Err(e),
            Ok(None) => return Err(Error::Unexpected(self.position, None)),
            Ok(Some(c)) => c,
        };
        if c == 'n' {
            let i = self.begin_fragment();
            let w = ['n', 'u', 'l', 'l'];
            assert(w@ =~= seq!['n', 'u', 'l', 'l']);
            match self.expect_word(&w) {
                Err(e) => return Err(e),
                Ok(()) => {},
            }
            proof {
                inp.lemma_literal(j, w@, 0);
            }
            self.end_fragment(i);
            proof {
                Self::lemma_whole(old_cm, self.code_map@, s, j, self.index as int);
            }
            Ok(Fragment::Value(Value::Null))
        } else if c == 't' {
            let i = self.begin_fragment();
            let w = ['t', 'r', 'u', 'e'];
            assert(w@ =~= seq!['t', 'r', 'u', 'e']);
            match self.expect_word(&w) {
                Err(e) => return Err(e),
                Ok(()) => {},
            }
            proof {
                inp.lemma_literal(j, w@, 0);
            }
            self.end_fragment(i);
            proof {
                Self::lemma_whole(old_cm, self.code_map@, s, j, self.index as int);
            }
            Ok(Fragment::Value(Value::Boolean(true)))
        } else if c == 'f' {
            let i = self.begin_fragment();
            let w = ['f', 'a', 'l', 's', 'e'];
            assert(w@ =~= seq!['f', 'a', 'l', 's', 'e']);
            match self.expect_word(&w) {
                Err(e) => return Err(e),
                Ok(()) => {},
            }
            proof {
                inp.lemma_literal(j, w@, 0);
            }
            self.end_fragment(i);
            proof {
                Self::lemma_whole(old_cm, self.code_map@, s, j, self.index as int);
            }
            Ok(Fragment::Value(Value::Boolean(false)))
        } else if ('0' <= c && c <= '9') || c == '-' {
            let i = self.begin_fragment();
            let n = match self.parse_number(ctx) {
                Err(e) => return Err(e),
                Ok(n) => n,
            };
            proof {
                inp.lemma_number(j, NumberState::Init, ctx);
            }
            self.end_fragment(i);
            proof {
                Self::lemma_whole(old_cm, self.code_map@, s, j, self.index as int);
            }
            Ok(Fragment::Value(Value::Number(n)))
        } else if c == '"' {
            let i = self.begin_fragment();
            let _ = self.next_char();
            let st = match self.parse_string_content() {
                Err(e) => return Err(e),
                Ok(st) => st,
            };
            proof {
                inp.lemma_string(j + 1, Seq::empty(), None);
            }
            self.end_fragment(i);
            proof {
                Self::lemma_whole(old_cm, self.code_map@, s, j, self.index as int);
            }
            Ok(Fragment::Value(Value::String(st)))
        } else if c == '[' {
            let i = self.begin_fragment();
            let _ = self.next_char();
            match self.skip_whitespaces() {
                Err(e) => return Err(e),
                Ok(()) => {},
            }
            proof {
                inp.lemma_skip_ws(j + 1);
            }
            match self.peek_char() {
                Ok(Some(d)) => {
                    if d == ']' {
                        let _ = self.next_char();
                        self.end_fragment(i);
                        let items: Vec<Value> = Vec::new();
                        proof {
                            Self::lemma_whole(old_cm, self.code_map@, s, j, self.index as int);
                            assert(values_view(items@) =~= Seq::<JValue>::empty());
                        }
                        return Ok(Fragment::Value(Value::Array(items)));
                    }
                },
                _ => {},
            }
            Ok(Fragment::BeginArray(i))
        } else if c == '{' {
            let i = self.begin_fragment();
            let _ = self.next_char();
            match self.skip_whitespaces() {
                Err(e) => return Err(e),
                Ok(()) => {},
            }
            proof {
                inp.lemma_skip_ws(j + 1);
            }
            match self.peek_char() {
                Ok(Some(d)) => {
                    if d == '}' {
                        let _ = self.next_char();
                        self.end_fragment(i);
                        proof {
                            Self::lemma_whole(old_cm, self.code_map@, s, j, self.index as int);
                        }
                        return Ok(Fragment::Value(Value::Object(Object::new())));
                    }
                },
                _ => {},
            }
            let ghost ks = self.index as int;
            let ghost cm1 = self.code_map@;
            let e = self.begin_fragment();
            let key = match self.parse_string_fragment() {
                Err(x) => return Err(x),
                Ok(key) => key,
            };
            proof {
                inp.lemma_key_colon(ks);
                inp.lemma_string(ks + 1, Seq::empty(), None);
            }
            match self.skip_whitespaces() {
                Err(x) => return Err(x),
                Ok(()) => {},
            }
            match self.next_char() {
                Err(x) => return Err(x),
                Ok((p, Some(d))) => {
                    if d != ':' {
                        return Err(Error::Unexpected(p, Some(d)));
                    }
                },
                Ok((p, None)) => return Err(Error::Unexpected(p, None)),
            }
            proof {
                assert(self.code_map@ =~= old_cm + seq![
                    entry_bytes(s, placeholder(j)),
                    entry_bytes(s, placeholder(ks)),
                    entry_bytes(s, SEntry { start: ks, end: inp.string_at(ks)->Ok_0.1, volume: 1 }),
                ]);
            }
            Ok(Fragment::BeginObject(i, key, e))
        } else {
            Err(Error::Unexpected(self.position, Some(c)))
        }
    }

    /// After an array item: `,` (another item) or `]` (the end of the array
    /// whose code-map offset is `i`).
    fn array_continue(&mut self, i: usize) -> (r: Result<bool, Error<()>>)
        requires
            old(self).wf(),
            i < old(self).code_map@.len(),
        ensures
            final(self).wf(),
            final(self).same_input(old(self)),
            match old(self).input().array_continue(old(self).index as int) {
                Err(e) => r == Err::<bool, Error<()>>(error_bytes(old(self).chars@, e)),
                Ok(ArrCont::Item(n)) => r == Ok::<bool, Error<()>>(true) && final(self).index == n
                    && final(self).code_map@ == old(self).code_map@,
                Ok(ArrCont::End(n)) => r == Ok::<bool, Error<()>>(false) && final(self).index == n
                    && final(self).code_map@ == old(self).code_map@.update(
                    i as int,
                    Entry {
                        span: Span {
                            start: old(self).code_map@[i as int].span.start,
                            end: byte_offset(old(self).chars@, n) as usize,
                        },
                        volume: (old(self).code_map@.len() - i) as usize,
                    },
                ),
            },
    {
        match self.skip_whitespaces() {
            Err(e) => return Err(e),
            Ok(()) => {},
        }
        match self.next_char() {
            Err(e) => Err(e),
            Ok((p, Some(c))) => {
                if c == ',' {
                    Ok(true)
                } else if c == ']' {
                    self.end_fragment(i);
                    Ok(false)
                } else {
                    Err(Error::Unexpected(p, Some(c)))
                }
            },
            Ok((p, None)) => Err(Error::Unexpected(p, None)),
        }
    }

    /// After an object entry: `,` and the next key with `:`, or `}` (the end
    /// of the object whose code-map offset is `i`).
    fn object_continue(&mut self, i: usize) -> (r: Result<Option<(String, usize)>, Error<()>>)
        requires
            old(self).wf(),
            i < old(self).code_map@.len(),
        ensures
            final(self).wf(),
            final(self).same_input(old(self)),
            match old(self).input().object_continue(old(self).index as int) {
                Err(e) => r == Err::<Option<(String, usize)>, Error<()>>(
                    error_bytes(old(self).chars@, e),
                ),
                Ok(ObjCont::Entry(key, ks, ke, next)) => r matches Ok(Some((k, e))) && k@ == key
                    && e == old(self).code_map@.len() && final(self).index == next
                    && final(self).code_map@ == old(self).code_map@ + seq![
                    entry_bytes(old(self).chars@, placeholder(ks)),
                    entry_bytes(old(self).chars@, SEntry { start: ks, end: ke, volume: 1 }),
                ],
                Ok(ObjCont::End(n)) => r matches Ok(None) && final(self).index == n
                    && final(self).code_map@ == old(self).code_map@.update(
                    i as int,
                    Entry {
                        span: Span {
                            start: old(self).code_map@[i as int].span.start,
                            end: byte_offset(old(self).chars@, n) as usize,
                        },
                        volume: (old(self).code_map@.len() - i) as usize,
                    },
                ),
            },
    {
        let ghost inp = self.input();
        let ghost s = self.chars@;
        let ghost old_cm = self.code_map@;
        match self.skip_whitespaces() {
            Err(e) => return Err(e),
            Ok(()) => {},
        }
        proof {
            inp.lemma_skip_ws(old(self).index as int);
        }
        match self.next_char() {
            Err(e) => Err(e),
            Ok((p, Some(c))) => {
                if c == ',' {
                    match self.skip_whitespaces() {
                        Err(x) => return Err(x),
                        Ok(()) => {},
                    }
                    let ghost ks = self.index as int;
                    proof {
                        inp.lemma_skip_ws(ks);
                        inp.lemma_key_colon(ks);
                    }
                    let e = self.begin_fragment();
                    let key = match self.parse_string_fragment() {
                        Err(x) => return Err(x),
                        Ok(key) => key,
                    };
                    match self.skip_whitespaces() {
                        Err(x) => return Err(x),
                        Ok(()) => {},
                    }
                    match self.next_char() {
                        Err(x) => return Err(x),
                        Ok((q, Some(d))) => {
                            if d != ':' {
                                return Err(Error::Unexpected(q, Some(d)));
                            }
                        },
                        Ok((q, None)) => return Err(Error::Unexpected(q, None)),
                    }
                    proof {
                        assert(self.code_map@ =~= old_cm + seq![
                            entry_bytes(s, placeholder(ks)),
                            entry_bytes(
                                s,
                                SEntry { start: ks, end: inp.string_at(ks)->Ok_0.1, volume: 1 },
                            ),
                        ]);
                    }
                    Ok(Some((key, e)))
                } else if c == '}' {
                    self.end_fragment(i);
                    Ok(None)
                } else {
                    Err(Error::Unexpected(p, Some(c)))
                }
            },
            Ok((p, None)) => Err(Error::Unexpected(p, None)),
        }
    }

    /// The state of [`Parser::parse_document`]'s loop: the open frames
    /// `stack` (modelled by `frames`), the value just read, if any, and the
    /// code-map (modelled by `cm`) determine the result of the whole parse.
    pub closed spec fn machine(
        &self,
        stack: Seq<StackItem>,
        value: Option<Value>,
        frames: Seq<SFrame>,
        cm: Seq<SEntry>,
    ) -> bool {
        let inp = self.input();
        &&& self.wf()
        &&& stack_matches(stack, frames)
        &&& frames_wf(frames, cm)
        &&& self.code_map@ == code_map_bytes(self.chars@, cm)
        &&& self.code_map@.len() == cm.len()
        &&& match value {
            Some(v) => (frames.len() == 0 || !item_is_continue(stack.last())) && inp.document()
                == inp.resume(frames, v.view_json(), self.index as int, cm),
            None => if frames.len() > 0 && item_is_continue(stack.last()) {
                inp.document() == inp.continue_frame(frames, self.index as int, cm)
            } else {
                inp.document() == inp.need_value(frames, self.index as int, cm)
            },
        }
    }

    /// The parse is over: `r` is its result.
    pub closed spec fn outcome(&self, r: Result<Value, Error<()>>) -> bool {
        let inp = self.input();
        match inp.document() {
            Ok((v, cm)) => r matches Ok(val) && val.view_json() == v && self.code_map@
                == code_map_bytes(self.chars@, cm),
            Err(e) => r == Err::<Value, Error<()>>(error_bytes(self.chars@, e)),
        }
    }

    /// Reads a value (or uses the value `value` just read) where the frames
    /// `frames` wait for one.
    #[verifier::rlimit(60)]
    fn read_value(
        &mut self,
        ctx: Context,
        value: Option<Value>,
        Ghost(frames): Ghost<Seq<SFrame>>,
        Ghost(cm): Ghost<Seq<SEntry>>,
    ) -> (r: Result<(Fragment, Ghost<(Seq<SEntry>, SFrame)>), Error<()>>)
        requires
            old(self).wf(),
            frames_wf(frames, cm),
            old(self).code_map@ == code_map_bytes(old(self).chars@, cm),
            old(self).code_map@.len() == cm.len(),
            ctx == frames_context(frames),
            match value {
                Some(v) => old(self).input().document() == old(self).input().resume(
                    frames,
                    v.view_json(),
                    old(self).index as int,
                    cm,
                ),
                None => old(self).input().document() == old(self).input().need_value(
                    frames,
                    old(self).index as int,
                    cm,
                ),
            },
        ensures
            final(self).wf(),
            final(self).same_input(old(self)),
            match r {
                Err(e) => old(self).outcome(Err(e)),
                Ok((Fragment::Value(v), g)) => {
                    &&& final(self).input().document() == final(self).input().resume(
                        frames,
                        v.view_json(),
                        final(self).index as int,
                        g@.0,
                    )
                    &&& frames_wf(frames, g@.0)
                    &&& final(self).code_map@ == code_map_bytes(final(self).chars@, g@.0)
                    &&& final(self).code_map@.len() == g@.0.len()
                    &&& (final(self).index > old(self).index || value is Some)
                    &&& final(self).index >= old(self).index
                },
                Ok((Fragment::BeginArray(j), g)) => {
                    &&& value is None
                    &&& final(self).index > old(self).index
                    &&& j == cm.len()
                    &&& g@.1 matches SFrame::Array { acc, cmi, .. }
                    &&& acc == Seq::<JValue>::empty() && cmi == cm.len()
                    &&& final(self).input().document() == final(self).input().need_value(
                        frames.push(g@.1),
                        final(self).index as int,
                        g@.0,
                    )
                    &&& frames_wf(frames.push(g@.1), g@.0)
                    &&& final(self).code_map@ == code_map_bytes(final(self).chars@, g@.0)
                    &&& final(self).code_map@.len() == g@.0.len()
                },
                Ok((Fragment::BeginObject(j, key, e), g)) => {
                    &&& value is None
                    &&& final(self).index > old(self).index
                    &&& j == cm.len()
                    &&& g@.1 matches SFrame::Object { acc, cmi, key: k, ecmi, .. }
                    &&& acc == Seq::<(Seq<char>, JValue)>::empty() && cmi == cm.len() && k == key@
                        && ecmi == e
                    &&& final(self).input().document() == final(self).input().need_value(
                        frames.push(g@.1),
                        final(self).index as int,
                        g@.0,
                    )
                    &&& frames_wf(frames.push(g@.1), g@.0)
                    &&& final(self).code_map@ == code_map_bytes(final(self).chars@, g@.0)
                    &&& final(self).code_map@.len() == g@.0.len()
                },
            },
    {
        let ghost inp = self.input();
        let ghost s = self.chars@;
        let ghost k = self.index as int;
        match value {
            Some(v) => Ok((Fragment::Value(v), Ghost((cm, SFrame::Array { start: 0, acc: Seq::empty(), cmi: 0 })))),
            None => {
                proof {
                    inp.lemma_fragment_progress(k, ctx);
                }
                match self.parse_fragment(ctx) {
                    Err(e) => {
                        proof {
                            assert(k >= 0);
                            assert(inp.need_value(frames, k, cm) == match inp.value(k, ctx) {
                                Err(x) => Err(x),
                                Ok((v, e, cmv)) => inp.resume(frames, v, e, cm + cmv),
                            });
                            assert(inp.fragment(k, ctx) is Err);
                            assert(inp.value(k, ctx) == Err::<(JValue, int, Seq<SEntry>), PErr>(
                                inp.fragment(k, ctx)->Err_0,
                            ));
                        }
                        Err(e)
                    },
                    Ok(f) => {
                        let ghost mut gcm = cm;
                        let ghost mut nf = SFrame::Array { start: 0, acc: Seq::empty(), cmi: 0 };
                        proof {
                            match inp.fragment(k, ctx) {
                                Ok(Frag::Whole(fv, fj, fend)) => {
                                    let se = SEntry { start: fj, end: fend, volume: 1 };
                                    lemma_step_whole(inp, frames, k, cm);
                                    lemma_code_map_bytes_push(s, cm, se);
                                    gcm = cm.push(se);
                                },
                                Ok(Frag::BeginArray(fj, fnext)) => {
                                    lemma_step_begin_array(inp, frames, k, cm);
                                    lemma_code_map_bytes_push(s, cm, placeholder(fj));
                                    gcm = cm.push(placeholder(fj));
                                    nf = SFrame::Array { start: fj, acc: Seq::empty(), cmi: cm.len() as int };
                                },
                                Ok(Frag::BeginObject(..)) => {
                                    let fr = inp.fragment(k, ctx)->Ok_0;
                                    lemma_step_begin_object(inp, frames, k, cm);
                                    lemma_code_map_bytes_add(s, cm, begin_object_extra(fr));
                                    assert(code_map_bytes(s, begin_object_extra(fr)) =~= seq![
                                        entry_bytes(s, placeholder(fr->BeginObject_0)),
                                        entry_bytes(s, placeholder(fr->BeginObject_2)),
                                        entry_bytes(
                                            s,
                                            SEntry {
                                                start: fr->BeginObject_2,
                                                end: fr->BeginObject_3,
                                                volume: 1,
                                            },
                                        ),
                                    ]);
                                    gcm = cm + begin_object_extra(fr);
                                    nf = begin_object_frame(fr, cm);
                                },
                                Err(_) => {},
                            }
                        }
                        Ok((f, Ghost((gcm, nf))))
                    },
                }
            },
        }
    }

    /// One step of the parse where the top frame `item` (popped from
    /// `stack`) waits for a value (or there is no frame).
    #[verifier::rlimit(60)]
    fn step_value(
        &mut self,
        stack: &mut Vec<StackItem>,
        item: Option<StackItem>,
        value: Option<Value>,
        Ghost(frames): Ghost<Seq<SFrame>>,
        Ghost(cm): Ghost<Seq<SEntry>>,
    ) -> (r: (Result<Option<Value>, Error<()>>, Ghost<(Seq<SFrame>, Seq<SEntry>)>))
        requires
            old(self).machine(push_opt(old(stack)@, item), value, frames, cm),
            item is None ==> old(stack)@.len() == 0,
            item matches Some(it) ==> !item_is_continue(it),
        ensures
            final(self).same_input(old(self)),
            match r.0 {
                Err(e) => old(self).outcome(Err(e)),
                Ok(Some(v)) => final(self).outcome(Ok(v)),
                Ok(None) => final(self).machine(final(stack)@, None, r.1@.0, r.1@.1) && (
                final(self).index > old(self).index || value is Some) && final(self).index
                    >= old(self).index,
            },
    {
        let ghost inp = self.input();
        let ghost st = push_opt(stack@, item);
        let ghost top = frames.last();
        let ghost rest = frames.drop_last();
        proof {
            if frames.len() > 0 {
                lemma_stack_pop(st, frames);
                assert(st.drop_last() =~= stack@);
                assert(rest.push(top) =~= frames);
            }
        }
        let ctx = match &item {
            Some(StackItem::ArrayItem(_, _)) => Context::Array,
            Some(StackItem::ObjectEntry(_, _, _, _)) => Context::ObjectValue,
            _ => Context::Root,
        };
        let (frag, g) = match self.read_value(ctx, value, Ghost(frames), Ghost(cm)) {
            Err(e) => return (Err(e), Ghost((frames, cm))),
            Ok(x) => x,
        };
        let ghost gcm = g@.0;
        let ghost nf = g@.1;
        match frag {
            Fragment::Value(v) => {
                match item {
                    None => {
                        proof {
                            assert(inp.document() == inp.finish(v.view_json(), self.index as int, gcm));
                        }
                        match self.skip_whitespaces() {
                            Err(e) => return (Err(e), Ghost((frames, gcm))),
                            Ok(()) => {},
                        }
                        let res = match self.next_char() {
                            Err(e) => Err(e),
                            Ok((p, Some(c))) => Err(Error::Unexpected(p, Some(c))),
                            Ok((_, None)) => Ok(Some(v)),
                        };
                        (res, Ghost((frames, gcm)))
                    },
                    Some(StackItem::ArrayItem(mut arr, i)) => {
                        proof {
                            lemma_step_deliver_array(inp, frames, v.view_json(), self.index as int, gcm);
                            crate::value::lemma_values_view_push(arr@, v);
                        }
                        let ghost nf2 = SFrame::Array {
                            start: top->Array_start,
                            acc: top->Array_acc.push(v.view_json()),
                            cmi: top->Array_cmi,
                        };
                        arr.push(v);
                        proof {
                            lemma_stack_push(stack@, rest, StackItem::Array(arr, i), nf2);
                        }
                        stack.push(StackItem::Array(arr, i));
                        (Ok(None), Ghost((rest.push(nf2), gcm)))
                    },
                    Some(StackItem::ObjectEntry(mut obj, i, key, e)) => {
                        let ghost n = self.index as int;
                        let ghost ecmi = top->Object_ecmi;
                        let ghost upd = SEntry {
                            start: top->Object_ks,
                            end: n,
                            volume: gcm.len() - ecmi,
                        };
                        let ghost nf2 = SFrame::Object {
                            start: top->Object_start,
                            acc: top->Object_acc.push((top->Object_key, v.view_json())),
                            cmi: top->Object_cmi,
                            key: top->Object_key,
                            ks: top->Object_ks,
                            ke: top->Object_ke,
                            ecmi,
                        };
                        proof {
                            lemma_step_deliver_object(inp, frames, v.view_json(), n, gcm);
                        }
                        self.end_fragment(e);
                        obj.push(key, v);
                        proof {
                            lemma_code_map_bytes_update(self.chars@, gcm, ecmi, upd);
                            lemma_stack_push(stack@, rest, StackItem::Object(obj, i), nf2);
                        }
                        stack.push(StackItem::Object(obj, i));
                        (Ok(None), Ghost((rest.push(nf2), gcm.update(ecmi, upd))))
                    },
                    Some(it) => (Ok(None), Ghost((frames, gcm))),
                }
            },
            Fragment::BeginArray(j) => {
                let items: Vec<Value> = Vec::new();
                proof {
                    assert(values_view(items@) =~= Seq::<JValue>::empty());
                }
                match item {
                    Some(it) => {
                        proof {
                            lemma_stack_push(stack@, rest, it, top);
                        }
                        stack.push(it);
                    },
                    None => {},
                }
                proof {
                    lemma_stack_push(stack@, frames, StackItem::ArrayItem(items, j), nf);
                }
                stack.push(StackItem::ArrayItem(items, j));
                (Ok(None), Ghost((frames.push(nf), gcm)))
            },
            Fragment::BeginObject(j, key, e) => {
                let obj = Object::new();
                match item {
                    Some(it) => {
                        proof {
                            lemma_stack_push(stack@, rest, it, top);
                        }
                        stack.push(it);
                    },
                    None => {},
                }
                proof {
                    lemma_stack_push(stack@, frames, StackItem::ObjectEntry(obj, j, key, e), nf);
                }
                stack.push(StackItem::ObjectEntry(obj, j, key, e));
                (Ok(None), Ghost((frames.push(nf), gcm)))
            },
        }
    }

    /// One step of the parse where the top frame `item` (popped from
    /// `stack`) has just read an item or an entry: `,` or the end of the
    /// array or object.
    #[verifier::rlimit(60)]
    fn step_continue(
        &mut self,
        stack: &mut Vec<StackItem>,
        item: StackItem,
        Ghost(frames): Ghost<Seq<SFrame>>,
        Ghost(cm): Ghost<Seq<SEntry>>,
    ) -> (r: (Result<Option<Value>, Error<()>>, Ghost<(Seq<SFrame>, Seq<SEntry>)>))
        requires
            old(self).machine(old(stack)@.push(item), None, frames, cm),
            item_is_continue(item),
        ensures
            final(self).same_input(old(self)),
            match r.0 {
                Err(e) => old(self).outcome(Err(e)),
                Ok(v) => final(self).machine(final(stack)@, v, r.1@.0, r.1@.1) && final(self).index
                    > old(self).index,
            },
    {
        let ghost inp = self.input();
        let ghost s = self.chars@;
        let ghost e0 = self.index as int;
        let ghost st = stack@.push(item);
        let ghost top = frames.last();
        let ghost rest = frames.drop_last();
        proof {
            lemma_stack_pop(st, frames);
            assert(st.drop_last() =~= stack@);
            assert(st.last() == item);
            lemma_frames_wf_pop(frames, cm);
            assert(rest.push(top) =~= frames);
            if rest.len() > 0 {
                assert(stack@.last() == st[rest.len() - 1]);
                assert(!item_is_continue(st[rest.len() - 1]));
            }
            assert(inp.document() == inp.continue_frame(frames, e0, cm));
        }
        match item {
            StackItem::Array(arr, i) => {
                proof {
                    inp.lemma_array_continue_progress(e0);
                }
                match self.array_continue(i) {
                    Err(e) => (Err(e), Ghost((frames, cm))),
                    Ok(true) => {
                        proof {
                            lemma_stack_push(stack@, rest, StackItem::ArrayItem(arr, i), top);
                        }
                        stack.push(StackItem::ArrayItem(arr, i));
                        (Ok(None), Ghost((frames, cm)))
                    },
                    Ok(false) => {
                        let ghost n = self.index as int;
                        let ghost cmi = top->Array_cmi;
                        let ghost upd = SEntry { start: top->Array_start, end: n, volume: cm.len() - cmi };
                        proof {
                            lemma_step_close(inp, frames, e0, cm, n);
                            lemma_code_map_bytes_update(s, cm, cmi, upd);
                        }
                        (Ok(Some(Value::Array(arr))), Ghost((rest, cm.update(cmi, upd))))
                    },
                }
            },
            StackItem::Object(obj, i) => {
                proof {
                    inp.lemma_object_continue_progress(e0);
                }
                match self.object_continue(i) {
                    Err(e) => (Err(e), Ghost((frames, cm))),
                    Ok(Some((key, e))) => {
                        let ghost c = inp.object_continue(e0)->Ok_0;
                        let ghost extra = seq![
                            placeholder(c->Entry_1),
                            SEntry { start: c->Entry_1, end: c->Entry_2, volume: 1 },
                        ];
                        let ghost nf = SFrame::Object {
                            start: top->Object_start,
                            acc: top->Object_acc,
                            cmi: top->Object_cmi,
                            key: c->Entry_0,
                            ks: c->Entry_1,
                            ke: c->Entry_2,
                            ecmi: cm.len() as int,
                        };
                        proof {
                            lemma_frames_wf_push_cm(rest, cm, extra);
                            assert(frame_ok(nf, cm + extra));
                            lemma_frames_wf_push(rest, cm + extra, nf);
                            lemma_code_map_bytes_add(s, cm, extra);
                            assert(code_map_bytes(s, extra) =~= seq![
                                entry_bytes(s, placeholder(c->Entry_1)),
                                entry_bytes(s, SEntry { start: c->Entry_1, end: c->Entry_2, volume: 1 }),
                            ]);
                            lemma_stack_push(stack@, rest, StackItem::ObjectEntry(obj, i, key, e), nf);
                        }
                        stack.push(StackItem::ObjectEntry(obj, i, key, e));
                        (Ok(None), Ghost((rest.push(nf), cm + extra)))
                    },
                    Ok(None) => {
                        let ghost n = self.index as int;
                        let ghost cmi = top->Object_cmi;
                        let ghost upd = SEntry { start: top->Object_start, end: n, volume: cm.len() - cmi };
                        proof {
                            lemma_step_close(inp, frames, e0, cm, n);
                            lemma_code_map_bytes_update(s, cm, cmi, upd);
                        }
                        (Ok(Some(Value::Object(obj))), Ghost((rest, cm.update(cmi, upd))))
                    },
                }
            },
            _ => (Ok(None), Ghost((frames, cm))),
        }
    }

    /// Parses the whole input as a JSON document, with its code-map.
    pub fn parse_document(&mut self) -> (r: Result<Value, Error<()>>)
        requires
            old(self).wf(),
            old(self).index_spec() == 0,
            old(self).code_map_spec() == Seq::<Entry>::empty(),
        ensures
            final(self).same_input(old(self)),
            final(self).outcome(r),
    {
        let ghost inp = self.input();
        let mut stack: Vec<StackItem> = Vec::new();
        let mut value: Option<Value> = None;
        let ghost mut frames: Seq<SFrame> = Seq::empty();
        let ghost mut gcm: Seq<SEntry> = Seq::empty();
        proof {
            assert(code_map_bytes(self.chars@, gcm) =~= Seq::<Entry>::empty());
            match inp.value(0, Context::Root) {
                Ok((v, e, cmv)) => {
                    assert(Seq::<SEntry>::empty() + cmv =~= cmv);
                },
                Err(_) => {},
            }
            assert(inp.document() == inp.need_value(frames, 0, gcm));
            assert(stack_matches(stack@, frames));
        }
        loop
            invariant
                self.same_input(old(self)),
                inp == self.input(),
                inp == old(self).input(),
                self.machine(stack@, value, frames, gcm),
            decreases self.chars@.len() - self.index, if value is Some { 1int } else { 0int },
        {
            let ghost before = stack@;
            let item = stack.pop();
            proof {
                assert(push_opt(stack@, item) =~= before);
            }
            match item {
                Some(StackItem::Array(a, i)) => {
                    let (res, g) = self.step_continue(
                        &mut stack,
                        StackItem::Array(a, i),
                        Ghost(frames),
                        Ghost(gcm),
                    );
                    match res {
                        Err(e) => return Err(e),
                        Ok(v) => {
                            value = v;
                            proof {
                                frames = g@.0;
                                gcm = g@.1;
                            }
                        },
                    }
                },
                Some(StackItem::Object(o, i)) => {
                    let (res, g) = self.step_continue(
                        &mut stack,
                        StackItem::Object(o, i),
                        Ghost(frames),
                        Ghost(gcm),
                    );
                    match res {
                        Err(e) => return Err(e),
                        Ok(v) => {
                            value = v;
                            proof {
                                frames = g@.0;
                                gcm = g@.1;
                            }
                        },
                    }
                },
                item => {
                    let (res, g) = self.step_value(&mut stack, item, value, Ghost(frames), Ghost(gcm));
                    value = None;
                    match res {
                        Err(e) => return Err(e),
                        Ok(Some(v)) => return Ok(v),
                        Ok(None) => {
                            proof {
                                frames = g@.0;
                                gcm = g@.1;
                            }
                        },
                    }
                },
            }
        }
    }

    /// The code-map built by the parser.
    pub fn into_code_map(self) -> (r: CodeMap)
        ensures
            r@ == self.code_map_spec(),
    {
        self.code_map
    }
}

/// The result of parsing the input `inp`: the value and its code-map, or the
/// error.
pub open spec fn parse_spec(inp: Input) -> Result<(JValue, Seq<Entry>), Error> {
    match inp.document() {
        Ok((v, cm)) => Ok((v, code_map_bytes(inp.chars, cm))),
        Err(e) => Err(utf8_error(error_bytes(inp.chars, e))),
    }
}

/// `r` is the result of parsing the input `inp`.
pub open spec fn parse_matches(inp: Input, r: Result<(Value, CodeMap), Error>) -> bool {
    match parse_spec(inp) {
        Ok((v, cm)) => r matches Ok((val, map)) && val.view_json() == v && map@ == cm,
        Err(e) => r == Err::<(Value, CodeMap), Error>(e),
    }
}

/// Parses the characters `chars` as a JSON document; if `stream_error`, the
/// character stream fails right after them.
pub fn parse_chars(chars: &[char], stream_error: bool, options: Options) -> (r: Result<
    (Value, CodeMap),
    Error,
>)
    requires
        byte_offset(chars@, chars@.len() as int) <= usize::MAX,
    ensures
        parse_matches(Input { chars: chars@, stream_error, options }, r),
{
    let mut parser = Parser::new_with(chars, stream_error, options);
    match parser.parse_document() {
        Ok(v) => Ok((v, parser.into_code_map())),
        Err(e) => Err(e.into_utf8()),
    }
}

/// What reading the input `inp` as one number gives: its characters and
/// its one code-map entry, or the error. The number starts at the first
/// character and ends where a whitespace or the end of the input comes.
pub open spec fn number_doc_spec(inp: Input) -> Result<(Seq<char>, Seq<Entry>), Error> {
    match inp.number(0, NumberState::Init, Context::Root) {
        Ok(end) => Ok(
            (
                inp.chars.subrange(0, end),
                seq![entry_bytes(inp.chars, SEntry { start: 0, end, volume: 1 })],
            ),
        ),
        Err(e) => Err(utf8_error(error_bytes(inp.chars, e))),
    }
}

/// What reading the input `inp` as one string literal gives: its content
/// and its one code-map entry, or the error.
pub open spec fn string_doc_spec(inp: Input) -> Result<(Seq<char>, Seq<Entry>), Error> {
    match inp.string_at(0) {
        Ok((st, end)) => Ok(
            (st, seq![entry_bytes(inp.chars, SEntry { start: 0, end, volume: 1 })]),
        ),
        Err(e) => Err(utf8_error(error_bytes(inp.chars, e))),
    }
}

/// Reads the characters `chars` as one number, from the first one; if
/// `stream_error`, the character stream fails right after them.
pub fn parse_number_chars(chars: &[char], stream_error: bool, options: Options) -> (r: Result<
    (NumberBuf, CodeMap),
    Error,
>)
    requires
        byte_offset(chars@, chars@.len() as int) <= usize::MAX,
    ensures
        match number_doc_spec(Input { chars: chars@, stream_error, options }) {
            Ok((n, cm)) => r matches Ok((num, map)) && num@ == n && map@ == cm,
            Err(e) => r == Err::<(NumberBuf, CodeMap), Error>(e),
        },
{
    let mut parser = Parser::new_with(chars, stream_error, options);
    let i = parser.begin_fragment();
    match parser.parse_number(Context::Root) {
        Ok(n) => {
            parser.end_fragment(i);
            let map = parser.into_code_map();
            proof {
                assert(byte_offset(chars@, 0) == 0);
                assert(map@ =~= seq![
                    entry_bytes(
                        chars@,
                        SEntry { start: 0, end: parser.index as int, volume: 1 },
                    ),
                ]);
            }
            Ok((n, map))
        },
        Err(e) => Err(e.into_utf8()),
    }
}

/// Reads the characters `chars` as one string literal, from the first one;
/// if `stream_error`, the character stream fails right after them.
pub fn parse_string_chars(chars: &[char], stream_error: bool, options: Options) -> (r: Result<
    (String, CodeMap),
    Error,
>)
    requires
        byte_offset(chars@, chars@.len() as int) <= usize::MAX,
    ensures
        match string_doc_spec(Input { chars: chars@, stream_error, options }) {
            Ok((st, cm)) => r matches Ok((res, map)) && res@ == st && map@ == cm,
            Err(e) => r == Err::<(String, CodeMap), Error>(e),
        },
{
    let mut parser = Parser::new_with(chars, stream_error, options);
    match parser.parse_string_fragment() {
        Ok(st) => {
            let map = parser.into_code_map();
            proof {
                assert(map@ =~= seq![
                    entry_bytes(
                        chars@,
                        SEntry { start: 0, end: parser.index as int, volume: 1 },
                    ),
                ]);
            }
            Ok((st, map))
        },
        Err(e) => Err(e.into_utf8()),
    }
}

} // verus!
