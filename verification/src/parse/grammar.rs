//! The JSON grammar accepted by the parser, as recursive spec functions over
//! the input characters.
//!
//! Positions are character indices into the input; byte offsets are obtained
//! with [`byte_offset`].
use vstd::prelude::*;
use crate::number::{NumberState, number_step, number_state_is_final, is_digit};
use crate::value::JValue;
use super::{Options, Context};

verus! {

/// Input of the parser: the decoded characters, whether the character stream
/// fails right after them (a decoding error), and the options.
pub struct Input {
    pub chars: Seq<char>,
    pub stream_error: bool,
    pub options: Options,
}

/// Parse error, with positions given as character indices.
pub enum PErr {
    Stream(int),
    Unexpected(int, Option<char>),
    InvalidUnicodeCodePoint(int, int, u32),
    MissingLowSurrogate(int, int, u16),
    InvalidLowSurrogate(int, int, u16, u32),
}

/// Code-map entry, with positions given as character indices.
pub struct SEntry {
    pub start: int,
    pub end: int,
    pub volume: int,
}

pub open spec fn placeholder(k: int) -> SEntry {
    SEntry { start: k, end: k, volume: 0 }
}

/// Number of bytes of the UTF-8 encoding of `c`.
pub open spec fn utf8_width(c: char) -> nat {
    if (c as u32) < 0x80 {
        1
    } else if (c as u32) < 0x800 {
        2
    } else if (c as u32) < 0x10000 {
        3
    } else {
        4
    }
}

/// Byte offset of the character of index `i`.
pub open spec fn byte_offset(s: Seq<char>, i: int) -> nat
    decreases i,
{
    if i <= 0 || s.len() == 0 {
        0
    } else if i > s.len() {
        byte_offset(s, s.len() as int)
    } else {
        byte_offset(s, i - 1) + utf8_width(s[i - 1])
    }
}

pub open spec fn is_ws(c: char) -> bool {
    c == ' ' || c == '\t' || c == '\r' || c == '\n'
}

pub open spec fn is_control(c: char) -> bool {
    (c as u32) <= 0x1f
}

pub open spec fn follows(ctx: Context, c: char) -> bool {
    match ctx {
        Context::Root => is_ws(c),
        Context::Array => is_ws(c) || c == ',' || c == ']',
        Context::ObjectKey => is_ws(c) || c == ':',
        Context::ObjectValue => is_ws(c) || c == ',' || c == '}',
    }
}

pub open spec fn hex_value(c: char) -> Option<u32> {
    if '0' <= c <= '9' {
        Some((c as u32 - '0' as u32) as u32)
    } else if 'a' <= c <= 'f' {
        Some((c as u32 - 'a' as u32 + 10) as u32)
    } else if 'A' <= c <= 'F' {
        Some((c as u32 - 'A' as u32 + 10) as u32)
    } else {
        None
    }
}

pub open spec fn is_scalar_value(cp: u32) -> bool {
    cp < 0xd800 || (0xe000 <= cp && cp <= 0x10ffff)
}

/// `char::from_u32`.
pub open spec fn char_of(cp: u32) -> Option<char> {
    if is_scalar_value(cp) {
        Some(cp as char)
    } else {
        None
    }
}

/// The escaped character of the simple escape sequence `\e`.
pub open spec fn simple_escape(e: char) -> Option<char> {
    if e == '"' || e == '\\' || e == '/' {
        Some(e)
    } else if e == 'b' {
        Some('\u{0008}')
    } else if e == 't' {
        Some('\u{0009}')
    } else if e == 'n' {
        Some('\u{000a}')
    } else if e == 'f' {
        Some('\u{000c}')
    } else if e == 'r' {
        Some('\u{000d}')
    } else {
        None
    }
}

pub open spec fn replacement_char() -> char {
    '\u{fffd}'
}

/// Code point of a surrogate pair.
pub open spec fn surrogate_pair(high: u32, low: u32) -> u32 {
    ((((high - 0xd800) as u32) << 10u32 | ((low - 0xdc00) as u32)) + 0x10000) as u32
}

/// Result of parsing the start of a fragment.
pub enum Frag {
    /// A complete value (scalar or empty container) from `start` to `end`.
    Whole(JValue, int, int),
    /// `[` at `start`, the first item starts at `next`.
    BeginArray(int, int),
    /// `{` at `start`, first key from `key_start` to `key_end`, `:` read, value at `next`.
    BeginObject(int, Seq<char>, int, int, int),
}

/// What follows an array item.
pub enum ArrCont {
    Item(int),
    End(int),
}

/// What follows an object entry.
pub enum ObjCont {
    End(int),
    /// Key, its start and end, and the start of the value after `:`.
    Entry(Seq<char>, int, int, int),
}

impl Input {
    pub open spec fn len(self) -> int {
        self.chars.len() as int
    }

    pub open spec fn get(self, i: int) -> Option<char> {
        if 0 <= i < self.len() {
            Some(self.chars[i])
        } else {
            None
        }
    }

    /// The error raised when reading the character at `i` fails to give an
    /// expected character.
    pub open spec fn fail_at(self, i: int) -> PErr {
        if 0 <= i < self.len() {
            PErr::Unexpected(i, Some(self.chars[i]))
        } else if self.stream_error {
            PErr::Stream(i)
        } else {
            PErr::Unexpected(i, None)
        }
    }

    /// Skips whitespaces from `i`.
    pub open spec fn skip_ws(self, i: int) -> Result<int, PErr>
        decreases self.len() - i,
    {
        if 0 <= i < self.len() {
            if is_ws(self.chars[i]) {
                self.skip_ws(i + 1)
            } else {
                Ok(i)
            }
        } else if self.stream_error {
            Err(PErr::Stream(i))
        } else {
            Ok(i)
        }
    }

    /// Reads the characters `w[t..]` from `i + t`; returns the end of the word.
    pub open spec fn literal(self, i: int, w: Seq<char>, t: int) -> Result<int, PErr>
        decreases w.len() - t,
    {
        if t >= w.len() || t < 0 {
            Ok(i + w.len())
        } else if self.get(i + t) == Some(w[t]) {
            self.literal(i, w, t + 1)
        } else {
            Err(self.fail_at(i + t))
        }
    }

    /// Runs the number automaton from `k` in state `st`; returns the end of
    /// the number.
    pub open spec fn number(self, k: int, st: NumberState, ctx: Context) -> Result<int, PErr>
        decreases self.len() - k,
    {
        if 0 <= k < self.len() {
            let c = self.chars[k];
            match number_step(st, c) {
                Some(next) => self.number(k + 1, next, ctx),
                None => if number_state_is_final(st) && follows(ctx, c) {
                    Ok(k)
                } else {
                    Err(PErr::Unexpected(k, Some(c)))
                },
            }
        } else if self.stream_error {
            Err(PErr::Stream(k))
        } else if number_state_is_final(st) {
            Ok(k)
        } else {
            Err(PErr::Unexpected(k, None))
        }
    }

    /// Reads `n` hexadecimal digits from `k`, accumulating into `acc`.
    pub open spec fn hex(self, k: int, n: nat, acc: u32) -> Result<u32, PErr>
        decreases n,
    {
        if n == 0 {
            Ok(acc)
        } else {
            match self.get(k) {
                Some(c) => match hex_value(c) {
                    Some(d) => self.hex(k + 1, (n - 1) as nat, (acc << 4u32) | d),
                    None => Err(PErr::Unexpected(k, Some(c))),
                },
                None => Err(self.fail_at(k)),
            }
        }
    }

    /// After reading the string character `c`, ending at `k`: deals with a
    /// pending high surrogate, then continues.
    pub open spec fn string_push(
        self,
        k: int,
        acc: Seq<char>,
        high: Option<(int, u32)>,
        c: char,
    ) -> Result<(Seq<char>, int), PErr>
        decreases self.len() - k, 2int,
    {
        match high {
            Some((ph, h)) => if self.options.accept_truncated_surrogate_pair {
                self.string(k, acc.push(replacement_char()).push(c), None)
            } else {
                Err(PErr::MissingLowSurrogate(ph, k, h as u16))
            },
            None => self.string(k, acc.push(c), None),
        }
    }

    /// After reading the code point `cp` of a `\u` escape (the `u` is at `p`,
    /// the escape ends at `k`), with no pending high surrogate.
    pub open spec fn string_codepoint(
        self,
        p: int,
        k: int,
        acc: Seq<char>,
        cp: u32,
    ) -> Result<(Seq<char>, int), PErr>
        decreases self.len() - k, 2int,
    {
        match char_of(cp) {
            Some(c) => self.string(k, acc.push(c), None),
            None => if self.options.accept_invalid_codepoints {
                self.string(k, acc.push(replacement_char()), None)
            } else {
                Err(PErr::InvalidUnicodeCodePoint(p, k, cp))
            },
        }
    }

    /// Reads the string content from `k` (after the opening quote); returns
    /// the decoded characters and the end of the literal.
    pub open spec fn string(self, k: int, acc: Seq<char>, high: Option<(int, u32)>) -> Result<
        (Seq<char>, int),
        PErr,
    >
        decreases self.len() - k, 1int,
    {
        if 0 <= k < self.len() {
            let c = self.chars[k];
            if c == '"' {
                match high {
                    Some((ph, h)) => if self.options.accept_truncated_surrogate_pair {
                        Ok((acc.push(replacement_char()), k + 1))
                    } else {
                        Err(PErr::MissingLowSurrogate(ph, k, h as u16))
                    },
                    None => Ok((acc, k + 1)),
                }
            } else if c == '\\' {
                match self.get(k + 1) {
                    None => Err(self.fail_at(k + 1)),
                    Some(e) => match simple_escape(e) {
                        Some(d) => self.string_push(k + 2, acc, high, d),
                        None => if e == 'u' {
                            match self.hex(k + 2, 4, 0) {
                                Err(x) => Err(x),
                                Ok(cp) => {
                                    proof {
                                        self.lemma_hex(k + 2, 4, 0);
                                    }
                                    let p = k + 1;
                                    let end = k + 6;
                                    match high {
                                        Some((ph, h)) => if 0xdc00 <= cp && cp <= 0xdfff {
                                            let pair = surrogate_pair(h, cp);
                                            match char_of(pair) {
                                                Some(c) => self.string(end, acc.push(c), None),
                                                None => if self.options.accept_invalid_codepoints {
                                                    self.string(
                                                        end,
                                                        acc.push(replacement_char()),
                                                        None,
                                                    )
                                                } else {
                                                    Err(
                                                        PErr::InvalidUnicodeCodePoint(
                                                            ph,
                                                            end,
                                                            pair,
                                                        ),
                                                    )
                                                },
                                            }
                                        } else if self.options.accept_truncated_surrogate_pair {
                                            self.string_codepoint(
                                                p,
                                                end,
                                                acc.push(replacement_char()),
                                                cp,
                                            )
                                        } else {
                                            Err(
                                                PErr::InvalidLowSurrogate(p, end, h as u16, cp),
                                            )
                                        },
                                        None => if 0xd800 <= cp && cp <= 0xdbff {
                                            self.string(end, acc, Some((p, cp)))
                                        } else {
                                            self.string_codepoint(p, end, acc, cp)
                                        },
                                    }
                                },
                            }
                        } else {
                            Err(PErr::Unexpected(k + 1, Some(e)))
                        },
                    },
                }
            } else if is_control(c) {
                Err(PErr::Unexpected(k, Some(c)))
            } else {
                self.string_push(k + 1, acc, high, c)
            }
        } else {
            Err(self.fail_at(k))
        }
    }

    /// A string literal at `k`.
    pub open spec fn string_at(self, k: int) -> Result<(Seq<char>, int), PErr> {
        if self.get(k) == Some('"') {
            self.string(k + 1, Seq::empty(), None)
        } else {
            Err(self.fail_at(k))
        }
    }

    /// Parses the start of a fragment, after whitespaces, from `i`.
    pub open spec fn fragment(self, i: int, ctx: Context) -> Result<Frag, PErr> {
        match self.skip_ws(i) {
            Err(x) => Err(x),
            Ok(j) => match self.get(j) {
                None => Err(self.fail_at(j)),
                Some(c) => if c == 'n' {
                    match self.literal(j, seq!['n', 'u', 'l', 'l'], 0) {
                        Ok(end) => Ok(Frag::Whole(JValue::Null, j, end)),
                        Err(x) => Err(x),
                    }
                } else if c == 't' {
                    match self.literal(j, seq!['t', 'r', 'u', 'e'], 0) {
                        Ok(end) => Ok(Frag::Whole(JValue::Boolean(true), j, end)),
                        Err(x) => Err(x),
                    }
                } else if c == 'f' {
                    match self.literal(j, seq!['f', 'a', 'l', 's', 'e'], 0) {
                        Ok(end) => Ok(Frag::Whole(JValue::Boolean(false), j, end)),
                        Err(x) => Err(x),
                    }
                } else if is_digit(c) || c == '-' {
                    match self.number(j, NumberState::Init, ctx) {
                        Ok(end) => Ok(
                            Frag::Whole(JValue::Number(self.chars.subrange(j, end)), j, end),
                        ),
                        Err(x) => Err(x),
                    }
                } else if c == '"' {
                    match self.string(j + 1, Seq::empty(), None) {
                        Ok((s, end)) => Ok(Frag::Whole(JValue::String(s), j, end)),
                        Err(x) => Err(x),
                    }
                } else if c == '[' {
                    match self.skip_ws(j + 1) {
                        Err(x) => Err(x),
                        Ok(k) => if self.get(k) == Some(']') {
                            Ok(Frag::Whole(JValue::Array(Seq::empty()), j, k + 1))
                        } else {
                            Ok(Frag::BeginArray(j, k))
                        },
                    }
                } else if c == '{' {
                    match self.skip_ws(j + 1) {
                        Err(x) => Err(x),
                        Ok(k) => if self.get(k) == Some('}') {
                            Ok(Frag::Whole(JValue::Object(Seq::empty()), j, k + 1))
                        } else {
                            match self.key_colon(k) {
                                Err(x) => Err(x),
                                Ok((key, ke, next)) => Ok(Frag::BeginObject(j, key, k, ke, next)),
                            }
                        },
                    }
                } else {
                    Err(PErr::Unexpected(j, Some(c)))
                },
            },
        }
    }

    /// A key at `k`, then whitespaces and `:`; returns the key, its end and
    /// the position after `:`.
    pub open spec fn key_colon(self, k: int) -> Result<(Seq<char>, int, int), PErr> {
        match self.string_at(k) {
            Err(x) => Err(x),
            Ok((key, ke)) => match self.skip_ws(ke) {
                Err(x) => Err(x),
                Ok(kc) => if self.get(kc) == Some(':') {
                    Ok((key, ke, kc + 1))
                } else {
                    Err(self.fail_at(kc))
                },
            },
        }
    }

    /// What follows an array item ending at `k`.
    pub open spec fn array_continue(self, k: int) -> Result<ArrCont, PErr> {
        match self.skip_ws(k) {
            Err(x) => Err(x),
            Ok(j) => if self.get(j) == Some(',') {
                Ok(ArrCont::Item(j + 1))
            } else if self.get(j) == Some(']') {
                Ok(ArrCont::End(j + 1))
            } else {
                Err(self.fail_at(j))
            },
        }
    }

    /// What follows an object entry ending at `k`.
    pub open spec fn object_continue(self, k: int) -> Result<ObjCont, PErr> {
        match self.skip_ws(k) {
            Err(x) => Err(x),
            Ok(j) => if self.get(j) == Some(',') {
                match self.skip_ws(j + 1) {
                    Err(x) => Err(x),
                    Ok(ks) => match self.key_colon(ks) {
                        Err(x) => Err(x),
                        Ok((key, ke, next)) => Ok(ObjCont::Entry(key, ks, ke, next)),
                    },
                }
            } else if self.get(j) == Some('}') {
                Ok(ObjCont::End(j + 1))
            } else {
                Err(self.fail_at(j))
            },
        }
    }

    /// A value from `i` (whitespaces first): the value, its end, and the
    /// code-map entries of its fragments in pre-order.
    pub open spec fn value(self, i: int, ctx: Context) -> Result<
        (JValue, int, Seq<SEntry>),
        PErr,
    >
        decreases self.len() - i, 0int,
    {
        if i < 0 {
            Err(PErr::Stream(i))
        } else {
        match self.fragment(i, ctx) {
            Err(x) => Err(x),
            Ok(Frag::Whole(v, start, end)) => Ok(
                (v, end, seq![SEntry { start, end, volume: 1 }]),
            ),
            Ok(Frag::BeginArray(start, next)) => {
                proof {
                    self.lemma_fragment_progress(i, ctx);
                }
                self.items(start, next, Seq::empty(), Seq::empty())
            },
            Ok(Frag::BeginObject(start, key, ks, ke, next)) => {
                proof {
                    self.lemma_fragment_progress(i, ctx);
                }
                self.members(start, key, ks, ke, next, Seq::empty(), Seq::empty())
            },
        }
        }
    }

    /// Array items from `k`, after the items `acc` whose entries are `cm`.
    pub open spec fn items(self, start: int, k: int, acc: Seq<JValue>, cm: Seq<SEntry>) -> Result<
        (JValue, int, Seq<SEntry>),
        PErr,
    >
        decreases self.len() - k, 1int,
    {
        match self.value(k, Context::Array) {
            Err(x) => Err(x),
            Ok((v, e, cmv)) => if e <= k || e > self.len() {
                Err(PErr::Stream(e))
            } else {
                match self.array_continue(e) {
                    Err(x) => Err(x),
                    Ok(ArrCont::Item(n)) => {
                        proof {
                            self.lemma_array_continue_progress(e);
                        }
                        self.items(start, n, acc.push(v), cm + cmv)
                    },
                    Ok(ArrCont::End(n)) => Ok(
                        (
                            JValue::Array(acc.push(v)),
                            n,
                            seq![SEntry { start, end: n, volume: 1 + cm.len() + cmv.len() as int }]
                                + cm + cmv,
                        ),
                    ),
                }
            },
        }
    }

    /// Object entries: the value of the entry with key `key` (from `ks` to
    /// `ke`) is at `kv`; `acc` are the previous entries, whose code-map
    /// entries are `cm`.
    pub open spec fn members(
        self,
        start: int,
        key: Seq<char>,
        ks: int,
        ke: int,
        kv: int,
        acc: Seq<(Seq<char>, JValue)>,
        cm: Seq<SEntry>,
    ) -> Result<(JValue, int, Seq<SEntry>), PErr>
        decreases self.len() - kv, 1int,
    {
        match self.value(kv, Context::ObjectValue) {
            Err(x) => Err(x),
            Ok((v, e, cmv)) => if e <= kv || e > self.len() {
                Err(PErr::Stream(e))
            } else {
                let acc2 = acc.push((key, v));
                let cm2 = cm + seq![
                    SEntry { start: ks, end: e, volume: 2 + cmv.len() as int },
                    SEntry { start: ks, end: ke, volume: 1 },
                ] + cmv;
                match self.object_continue(e) {
                    Err(x) => Err(x),
                    Ok(ObjCont::End(n)) => Ok(
                        (
                            JValue::Object(acc2),
                            n,
                            seq![SEntry { start, end: n, volume: 1 + cm2.len() as int }] + cm2,
                        ),
                    ),
                    Ok(ObjCont::Entry(key2, ks2, ke2, next)) => {
                        proof {
                            self.lemma_object_continue_progress(e);
                        }
                        self.members(start, key2, ks2, ke2, next, acc2, cm2)
                    },
                }
            },
        }
    }

    /// `k` is the end of the input (only whitespaces were left).
    pub open spec fn finish(self, v: JValue, k: int, cm: Seq<SEntry>) -> Result<
        (JValue, Seq<SEntry>),
        PErr,
    > {
        match self.skip_ws(k) {
            Err(x) => Err(x),
            Ok(j) => if 0 <= j < self.len() || self.stream_error {
                Err(self.fail_at(j))
            } else {
                Ok((v, cm))
            },
        }
    }

    /// The whole input is a JSON value: the value and the code-map.
    pub open spec fn document(self) -> Result<(JValue, Seq<SEntry>), PErr> {
        match self.value(0, Context::Root) {
            Err(x) => Err(x),
            Ok((v, e, cm)) => self.finish(v, e, cm),
        }
    }

    // ------------------------------------------------------------------
    // Progress lemmas.
    pub proof fn lemma_skip_ws(self, i: int)
        requires
            0 <= i,
        ensures
            self.skip_ws(i) matches Ok(j) ==> i <= j && (j < self.len() ==> 0 <= j && !is_ws(
                self.chars[j],
            )) && (j >= self.len() ==> j == i || j == self.len()),
            self.skip_ws(i) matches Ok(j) ==> (i <= self.len() ==> j <= self.len()),
            self.skip_ws(i) matches Ok(j) ==> (i >= 0 ==> forall|t: int|
                i <= t < j ==> #[trigger] is_ws(self.chars[t])),
            self.skip_ws(i) matches Err(e) ==> e == PErr::Stream(self.len()) || (i < 0
                || i > self.len()),
        decreases self.len() - i,
    {
        if 0 <= i < self.len() && is_ws(self.chars[i]) {
            self.lemma_skip_ws(i + 1);
        }
    }

    pub proof fn lemma_hex(self, k: int, n: nat, acc: u32)
        requires
            0 <= k,
        ensures
            self.hex(k, n, acc) is Ok && n > 0 ==> k + n <= self.len(),
        decreases n,
    {
        if n > 0 {
            match self.get(k) {
                Some(c) => match hex_value(c) {
                    Some(d) => self.lemma_hex(k + 1, (n - 1) as nat, (acc << 4u32) | d),
                    None => {},
                },
                None => {},
            }
        }
    }

    pub proof fn lemma_literal(self, i: int, w: Seq<char>, t: int)
        requires
            0 <= t,
        ensures
            self.literal(i, w, t) matches Ok(e) ==> e == i + w.len() && (t < w.len() ==> i
                + w.len() <= self.len()),
        decreases w.len() - t,
    {
        if t < w.len() && self.get(i + t) == Some(w[t]) {
            self.lemma_literal(i, w, t + 1);
        }
    }

    pub proof fn lemma_number(self, k: int, st: NumberState, ctx: Context)
        requires
            0 <= k <= self.len(),
        ensures
            self.number(k, st, ctx) matches Ok(e) ==> k <= e <= self.len(),
        decreases self.len() - k,
    {
        if 0 <= k < self.len() {
            match number_step(st, self.chars[k]) {
                Some(next) => self.lemma_number(k + 1, next, ctx),
                None => {},
            }
        }
    }

    pub proof fn lemma_string(self, k: int, acc: Seq<char>, high: Option<(int, u32)>)
        requires
            0 <= k,
        ensures
            self.string(k, acc, high) matches Ok((_, e)) ==> k < e <= self.len(),
        decreases self.len() - k, 1int,
    {
        if 0 <= k < self.len() {
            let c = self.chars[k];
            if c == '"' {
            } else if c == '\\' {
                match self.get(k + 1) {
                    None => {},
                    Some(e) => match simple_escape(e) {
                        Some(d) => self.lemma_string_push(k + 2, acc, high, d),
                        None => if e == 'u' {
                            self.lemma_hex(k + 2, 4, 0);
                            match self.hex(k + 2, 4, 0) {
                                Err(x) => {},
                                Ok(cp) => {
                                    let p = k + 1;
                                    let end = k + 6;
                                    match high {
                                        Some((ph, h)) => if 0xdc00 <= cp && cp <= 0xdfff {
                                            let pair = surrogate_pair(h, cp);
                                            match char_of(pair) {
                                                Some(c) => self.lemma_string(
                                                    end,
                                                    acc.push(c),
                                                    None,
                                                ),
                                                None => self.lemma_string(
                                                    end,
                                                    acc.push(replacement_char()),
                                                    None,
                                                ),
                                            }
                                        } else if self.options.accept_truncated_surrogate_pair {
                                            self.lemma_string_codepoint(
                                                p,
                                                end,
                                                acc.push(replacement_char()),
                                                cp,
                                            );
                                        },
                                        None => if 0xd800 <= cp && cp <= 0xdbff {
                                            self.lemma_string(end, acc, Some((p, cp)));
                                        } else {
                                            self.lemma_string_codepoint(p, end, acc, cp);
                                        },
                                    }
                                },
                            }
                        },
                    },
                }
            } else if is_control(c) {
            } else {
                self.lemma_string_push(k + 1, acc, high, c);
            }
        }
    }

    pub proof fn lemma_string_push(
        self,
        k: int,
        acc: Seq<char>,
        high: Option<(int, u32)>,
        c: char,
    )
        requires
            0 <= k,
        ensures
            self.string_push(k, acc, high, c) matches Ok((_, e)) ==> k < e <= self.len(),
        decreases self.len() - k, 2int,
    {
        match high {
            Some((ph, h)) => if self.options.accept_truncated_surrogate_pair {
                self.lemma_string(k, acc.push(replacement_char()).push(c), None);
            },
            None => self.lemma_string(k, acc.push(c), None),
        }
    }

    pub proof fn lemma_string_codepoint(self, p: int, k: int, acc: Seq<char>, cp: u32)
        requires
            0 <= k,
        ensures
            self.string_codepoint(p, k, acc, cp) matches Ok((_, e)) ==> k < e <= self.len(),
        decreases self.len() - k, 2int,
    {
        match char_of(cp) {
            Some(c) => self.lemma_string(k, acc.push(c), None),
            None => if self.options.accept_invalid_codepoints {
                self.lemma_string(k, acc.push(replacement_char()), None);
            },
        }
    }

    pub proof fn lemma_key_colon(self, k: int)
        requires
            0 <= k,
        ensures
            self.key_colon(k) matches Ok((_, ke, next)) ==> k < ke < next <= self.len(),
    {
        if self.get(k) == Some('"') {
            self.lemma_string(k + 1, Seq::empty(), None);
            match self.string(k + 1, Seq::empty(), None) {
                Ok((_, ke)) => self.lemma_skip_ws(ke),
                Err(_) => {},
            }
        }
    }

    pub proof fn lemma_fragment_progress(self, i: int, ctx: Context)
        requires
            0 <= i,
        ensures
            self.fragment(i, ctx) matches Ok(Frag::Whole(_, start, end)) ==> i <= start < end
                <= self.len(),
            self.fragment(i, ctx) matches Ok(Frag::BeginArray(start, next)) ==> i <= start
                < next <= self.len(),
            self.fragment(i, ctx) matches Ok(Frag::BeginObject(start, _, ks, ke, next)) ==> i
                <= start < ks < ke < next <= self.len(),
    {
        self.lemma_skip_ws(i);
        match self.skip_ws(i) {
            Err(_) => {},
            Ok(j) => match self.get(j) {
                None => {},
                Some(c) => {
                    if c == 'n' {
                        self.lemma_literal(j, seq!['n', 'u', 'l', 'l'], 0);
                    } else if c == 't' {
                        self.lemma_literal(j, seq!['t', 'r', 'u', 'e'], 0);
                    } else if c == 'f' {
                        self.lemma_literal(j, seq!['f', 'a', 'l', 's', 'e'], 0);
                    } else if is_digit(c) || c == '-' {
                        self.lemma_number(j, NumberState::Init, ctx);
                        if self.number(j, NumberState::Init, ctx) is Ok {
                            reveal_with_fuel(Input::number, 2);
                            assert(number_step(NumberState::Init, c) is Some);
                            self.lemma_number(j + 1, number_step(NumberState::Init, c)->0, ctx);
                        }
                    } else if c == '"' {
                        self.lemma_string(j + 1, Seq::empty(), None);
                    } else if c == '[' {
                        self.lemma_skip_ws(j + 1);
                    } else if c == '{' {
                        self.lemma_skip_ws(j + 1);
                        match self.skip_ws(j + 1) {
                            Ok(k) => self.lemma_key_colon(k),
                            Err(_) => {},
                        }
                    }
                },
            },
        }
    }

    pub proof fn lemma_array_continue_progress(self, k: int)
        requires
            0 <= k,
        ensures
            self.array_continue(k) matches Ok(ArrCont::Item(n)) ==> k < n <= self.len(),
            self.array_continue(k) matches Ok(ArrCont::End(n)) ==> k < n <= self.len(),
    {
        self.lemma_skip_ws(k);
    }

    pub proof fn lemma_object_continue_progress(self, k: int)
        requires
            0 <= k,
        ensures
            self.object_continue(k) matches Ok(ObjCont::End(n)) ==> k < n <= self.len(),
            self.object_continue(k) matches Ok(ObjCont::Entry(_, ks, ke, next)) ==> k < ks < ke
                < next <= self.len(),
    {
        self.lemma_skip_ws(k);
        match self.skip_ws(k) {
            Ok(j) => if self.get(j) == Some(',') {
                self.lemma_skip_ws(j + 1);
                match self.skip_ws(j + 1) {
                    Ok(ks) => self.lemma_key_colon(ks),
                    Err(_) => {},
                }
            },
            Err(_) => {},
        }
    }
}

} // verus!
