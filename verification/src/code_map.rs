//! Code-map: the position of each fragment of a parsed JSON value in the
//! source text.
use vstd::prelude::*;

verus! {

/// Byte span `[start, end)` of a fragment in the source text.
#[derive(Clone, Copy, PartialEq, Eq, Structural, Debug, Default, Hash)]
pub struct Span {
    pub start: usize,
    pub end: usize,
}

impl Span {
    pub fn new(start: usize, end: usize) -> (r: Span)
        ensures
            r.start == start,
            r.end == end,
    {
        Span { start, end }
    }

    pub fn start(&self) -> (r: usize)
        ensures
            r == self.start,
    {
        self.start
    }

    pub fn end(&self) -> (r: usize)
        ensures
            r == self.end,
    {
        self.end
    }

    pub fn set_end(&mut self, end: usize)
        ensures
            final(self).start == old(self).start,
            final(self).end == end,
    {
        self.end = end;
    }
}

/// Code-map entry.
///
/// Provides code-mapping metadata about a fragment of JSON value.
#[derive(Clone, Copy, PartialEq, Eq, Structural, Debug, Default, Hash)]
pub struct Entry {
    /// Byte span of the fragment in the source text.
    pub span: Span,
    /// Number of sub-fragment (including the fragment itself).
    pub volume: usize,
}

impl Entry {
    pub fn new(span: Span, volume: usize) -> (r: Entry)
        ensures
            r.span == span,
            r.volume == volume,
    {
        Entry { span, volume }
    }
}

/// Code-map.
///
/// The entries are listed in the order in which the fragments appear in the
/// source text (pre-order).
#[derive(Debug, Default)]
pub struct CodeMap {
    pub(crate) entries: Vec<Entry>,
}

impl View for CodeMap {
    type V = Seq<Entry>;

    closed spec fn view(&self) -> Seq<Entry> {
        self.entries@
    }
}

impl CodeMap {
    pub fn new() -> (r: CodeMap)
        ensures
            r@ == Seq::<Entry>::empty(),
    {
        CodeMap { entries: Vec::new() }
    }

    pub fn as_slice(&self) -> (r: &[Entry])
        ensures
            r@ == self@,
    {
        self.entries.as_slice()
    }

    pub fn len(&self) -> (r: usize)
        ensures
            r == self@.len(),
    {
        self.entries.len()
    }

    pub fn is_empty(&self) -> (r: bool)
        ensures
            r == (self@.len() == 0),
    {
        self.entries.len() == 0
    }

    /// Returns the entry of the fragment with the given offset.
    pub fn get(&self, i: usize) -> (r: Option<&Entry>)
        ensures
            i < self@.len() ==> r == Some(&self@[i as int]),
            i >= self@.len() ==> r is None,
    {
        if i < self.entries.len() {
            Some(&self.entries[i])
        } else {
            None
        }
    }

    /// Adds a placeholder entry starting (and ending) at `position`, and
    /// returns its offset.
    pub(crate) fn reserve(&mut self, position: usize) -> (r: usize)
        ensures
            r == old(self)@.len(),
            final(self)@ == old(self)@.push(Entry { span: Span { start: position, end: position }, volume: 0 }),
    {
        let i = self.entries.len();
        self.entries.push(Entry { span: Span { start: position, end: position }, volume: 0 });
        i
    }

    /// Completes the placeholder entry `i`: its span ends at `end` and its
    /// volume counts every entry added since it was reserved, itself included.
    pub(crate) fn finish(&mut self, i: usize, end: usize)
        requires
            i < old(self)@.len(),
        ensures
            final(self)@ == old(self)@.update(
                i as int,
                Entry {
                    span: Span { start: old(self)@[i as int].span.start, end },
                    volume: (old(self)@.len() - i) as usize,
                },
            ),
    {
        let count = self.entries.len();
        let mut e = self.entries[i];
        e.span.end = end;
        e.volume = count - i;
        self.entries.set(i, e);
    }

    /// Lists the entries with their offset.
    pub fn iter(&self) -> (r: Vec<(usize, Entry)>)
        ensures
            r@.len() == self@.len(),
            forall|i: int| 0 <= i < r@.len() ==> #[trigger] r@[i] == (i as usize, self@[i]),
    {
        let mut r: Vec<(usize, Entry)> = Vec::new();
        let mut i: usize = 0;
        while i < self.entries.len()
            invariant
                i <= self.entries@.len(),
                r@.len() == i,
                forall|j: int| 0 <= j < i ==> #[trigger] r@[j] == (j as usize, self@[j]),
            decreases self.entries@.len() - i,
        {
            r.push((i, self.entries[i]));
            i = i + 1;
        }
        r
    }
}

/// A value together with the offset of its fragment in a code-map.
#[derive(Clone, Copy, PartialEq, Eq, Debug, Hash)]
pub struct Mapped<T> {
    pub offset: usize,
    pub value: T,
}

impl<T> Mapped<T> {
    pub fn new(offset: usize, value: T) -> (r: Mapped<T>)
        ensures
            r.offset == offset,
            r.value == value,
    {
        Mapped { offset, value }
    }
}

} // verus!
