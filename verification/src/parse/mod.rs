//! JSON parser.
use vstd::prelude::*;

pub mod grammar;
pub mod machine;
pub mod parser;
pub mod utf8;
pub mod document;
pub mod fragments;
pub mod roundtrip;
pub mod laws;

use crate::code_map::Span;
use grammar::{is_ws, follows};

verus! {

/// Parser options.
#[derive(Clone, Copy, PartialEq, Eq, Structural, Debug, Hash)]
pub struct Options {
    /// Whether or not to accept a high surrogate without its low counterpart
    /// in strings.
    ///
    /// In such instance, the high surrogate will be replaced with the Unicode
    /// REPLACEMENT CHARACTER, U+FFFD.
    pub accept_truncated_surrogate_pair: bool,
    /// Whether or not to accept invalid Unicode codepoints in strings.
    ///
    /// Invalid codepoints will be replaced with the Unicode
    /// REPLACEMENT CHARACTER, U+FFFD.
    pub accept_invalid_codepoints: bool,
}

impl Options {
    /// Strict mode: all options are set to `false`.
    pub fn strict() -> (r: Options)
        ensures
            !r.accept_truncated_surrogate_pair,
            !r.accept_invalid_codepoints,
    {
        Options { accept_truncated_surrogate_pair: false, accept_invalid_codepoints: false }
    }

    /// Flexible mode: all options are set to `true`.
    pub fn flexible() -> (r: Options)
        ensures
            r.accept_truncated_surrogate_pair,
            r.accept_invalid_codepoints,
    {
        Options { accept_truncated_surrogate_pair: true, accept_invalid_codepoints: true }
    }
}

impl Default for Options {
    fn default() -> (r: Options)
        ensures
            !r.accept_truncated_surrogate_pair,
            !r.accept_invalid_codepoints,
    {
        Options::strict()
    }
}

/// Parsing context: defines what characters are allowed after a value.
#[derive(Clone, Copy, PartialEq, Eq, Structural, Debug)]
pub enum Context {
    Root,
    Array,
    ObjectKey,
    ObjectValue,
}

/// Checks if the given char `c` is a JSON whitespace.
pub fn is_whitespace(c: char) -> (b: bool)
    ensures
        b == is_ws(c),
{
    c == ' ' || c == '\t' || c == '\r' || c == '\n'
}

pub(crate) fn follows_exec(ctx: Context, c: char) -> (b: bool)
    ensures
        b == follows(ctx, c),
{
    match ctx {
        Context::Root => is_whitespace(c),
        Context::Array => is_whitespace(c) || c == ',' || c == ']',
        Context::ObjectKey => is_whitespace(c) || c == ':',
        Context::ObjectValue => is_whitespace(c) || c == ',' || c == '}',
    }
}

impl Context {
    /// Checks if the given character `c` can follow a value in this context.
    pub fn follows(&self, c: char) -> (b: bool)
        ensures
            b == follows(*self, c),
    {
        follows_exec(*self, c)
    }
}

/// Parse error.
#[derive(Debug)]
pub enum Error<E = core::convert::Infallible> {
    /// Stream error: the byte index at which the error occurred.
    Stream(usize, E),
    /// Unexpected character or end of stream, at the given byte index.
    Unexpected(usize, Option<char>),
    /// Invalid unicode codepoint.
    InvalidUnicodeCodePoint(Span, u32),
    /// Missing low surrogate in a string.
    MissingLowSurrogate(Span, u16),
    /// Invalid low surrogate in a string.
    InvalidLowSurrogate(Span, u16, u32),
    /// UTF-8 encoding error, at the given byte index.
    InvalidUtf8(usize),
}

/// The error `e` of a parse of UTF-8 input: a failure of the character
/// stream is a UTF-8 decoding error.
pub open spec fn utf8_error(e: Error<()>) -> Error {
    match e {
        Error::Stream(p, _) => Error::InvalidUtf8(p),
        Error::Unexpected(p, c) => Error::Unexpected(p, c),
        Error::InvalidUnicodeCodePoint(s, c) => Error::InvalidUnicodeCodePoint(s, c),
        Error::MissingLowSurrogate(s, h) => Error::MissingLowSurrogate(s, h),
        Error::InvalidLowSurrogate(s, h, l) => Error::InvalidLowSurrogate(s, h, l),
        Error::InvalidUtf8(p) => Error::InvalidUtf8(p),
    }
}

impl Error<()> {
    /// Turns a failure of the character stream into a UTF-8 decoding error.
    pub fn into_utf8(self) -> (r: Error)
        ensures
            r == utf8_error(self),
    {
        match self {
            Error::Stream(p, _) => Error::InvalidUtf8(p),
            Error::Unexpected(p, c) => Error::Unexpected(p, c),
            Error::InvalidUnicodeCodePoint(s, c) => Error::InvalidUnicodeCodePoint(s, c),
            Error::MissingLowSurrogate(s, h) => Error::MissingLowSurrogate(s, h),
            Error::InvalidLowSurrogate(s, h, l) => Error::InvalidLowSurrogate(s, h, l),
            Error::InvalidUtf8(p) => Error::InvalidUtf8(p),
        }
    }
}

impl<E> Error<E> {
    /// Byte index at which the error occurred.
    pub fn position(&self) -> (r: usize)
        ensures
            r == match *self {
                Error::Stream(p, _) => p,
                Error::Unexpected(p, _) => p,
                Error::InvalidUnicodeCodePoint(span, _) => span.start,
                Error::MissingLowSurrogate(span, _) => span.start,
                Error::InvalidLowSurrogate(span, _, _) => span.start,
                Error::InvalidUtf8(p) => p,
            },
    {
        match self {
            Error::Stream(p, _) => *p,
            Error::Unexpected(p, _) => *p,
            Error::InvalidUnicodeCodePoint(span, _) => span.start,
            Error::MissingLowSurrogate(span, _) => span.start,
            Error::InvalidLowSurrogate(span, _, _) => span.start,
            Error::InvalidUtf8(p) => *p,
        }
    }

    /// Byte span at which the error occurred.
    pub fn span(&self) -> (r: Span)
        ensures
            r == match *self {
                Error::Stream(p, _) => Span { start: p, end: p },
                Error::Unexpected(p, _) => Span { start: p, end: p },
                Error::InvalidUnicodeCodePoint(span, _) => span,
                Error::MissingLowSurrogate(span, _) => span,
                Error::InvalidLowSurrogate(span, _, _) => span,
                Error::InvalidUtf8(p) => Span { start: p, end: p },
            },
    {
        match self {
            Error::Stream(p, _) => Span::new(*p, *p),
            Error::Unexpected(p, _) => Span::new(*p, *p),
            Error::InvalidUnicodeCodePoint(span, _) => *span,
            Error::MissingLowSurrogate(span, _) => *span,
            Error::InvalidLowSurrogate(span, _, _) => *span,
            Error::InvalidUtf8(p) => Span::new(*p, *p),
        }
    }
}

} // verus!
