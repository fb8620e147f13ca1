//! Parsing JSON documents from strings and byte slices.
use vstd::prelude::*;
use vstd::utf8::{encode_utf8, valid_utf8, decode_utf8};
use crate::code_map::CodeMap;
use crate::value::Value;
use super::{Options, Error};
use super::grammar::{Input, byte_offset};
use super::parser::{
    parse_chars, parse_matches, parse_spec, parse_number_chars, parse_string_chars, number_doc_spec,
    string_doc_spec,
};
use crate::number::NumberBuf;
use super::utf8::{decode_utf8_prefix, utf8_decoded, lemma_byte_offset_encode};

verus! {

/// The characters of `content`, in order.
pub fn str_chars(content: &str) -> (r: Vec<char>)
    ensures
        r@ == content@,
{
    broadcast use vstd::string::axiom_spec_iter;

    let mut v: Vec<char> = Vec::new();
    for c in it: content.chars()
        invariant
            it.seq() == content@,
            v@ == it.seq().take(it.index()),
    {
        proof {
            assert(it.seq().take(it.index() + 1) =~= v@.push(c));
        }
        v.push(c);
    }
    proof {
        assert(content@.take(content@.len() as int) =~= content@);
    }
    v
}

/// The input of a parse of the string `s`.
pub open spec fn str_input(s: Seq<char>, options: Options) -> Input {
    Input { chars: s, stream_error: false, options }
}

/// The input of a parse of the bytes `b`: the characters decoded before
/// the first UTF-8 error, then that error, if any.
pub open spec fn slice_input(b: Seq<u8>, options: Options) -> Input {
    Input { chars: utf8_decoded(b, 0).0, stream_error: utf8_decoded(b, 0).1, options }
}

/// The default (strict) options.
pub open spec fn default_options() -> Options {
    Options { accept_truncated_surrogate_pair: false, accept_invalid_codepoints: false }
}

/// Parsing of JSON documents.
pub trait Parse: Sized {
    /// Parses the string `content`, with the default options.
    fn parse_str(content: &str) -> Result<(Self, CodeMap), Error>;

    /// Parses the string `content`, with the given options.
    fn parse_str_with(content: &str, options: Options) -> Result<(Self, CodeMap), Error>;

    /// Parses the UTF-8 bytes `content`, with the default options.
    fn parse_slice(content: &[u8]) -> Result<(Self, CodeMap), Error>;

    /// Parses the UTF-8 bytes `content`, with the given options.
    fn parse_slice_with(content: &[u8], options: Options) -> Result<(Self, CodeMap), Error>;
}

impl Parse for Value {
    fn parse_str(content: &str) -> (r: Result<(Value, CodeMap), Error>)
        ensures
            parse_matches(str_input(content@, default_options()), r),
    {
        Self::parse_str_with(content, Options::strict())
    }

    fn parse_str_with(content: &str, options: Options) -> (r: Result<(Value, CodeMap), Error>)
        ensures
            parse_matches(str_input(content@, options), r),
    {
        let chars = str_chars(content);
        let byte_len = content.as_bytes().len();
        proof {
            lemma_byte_offset_encode(content@);
            assert(byte_offset(chars@, chars@.len() as int) == byte_len);
        }
        parse_chars(chars.as_slice(), false, options)
    }

    fn parse_slice(content: &[u8]) -> (r: Result<(Value, CodeMap), Error>)
        ensures
            parse_matches(slice_input(content@, default_options()), r),
            valid_utf8(content@) ==> parse_matches(
                str_input(decode_utf8(content@), default_options()),
                r,
            ),
    {
        Self::parse_slice_with(content, Options::strict())
    }

    fn parse_slice_with(content: &[u8], options: Options) -> (r: Result<(Value, CodeMap), Error>)
        ensures
            parse_matches(slice_input(content@, options), r),
            valid_utf8(content@) ==> parse_matches(str_input(decode_utf8(content@), options), r),
    {
        let (chars, stream_error) = decode_utf8_prefix(content);
        parse_chars(chars.as_slice(), stream_error, options)
    }
}

impl Parse for NumberBuf {
    fn parse_str(content: &str) -> (r: Result<(NumberBuf, CodeMap), Error>)
        ensures
            match number_doc_spec(str_input(content@, default_options())) {
                Ok((n, cm)) => r matches Ok((num, map)) && num@ == n && map@ == cm,
                Err(e) => r == Err::<(NumberBuf, CodeMap), Error>(e),
            },
    {
        Self::parse_str_with(content, Options::strict())
    }

    fn parse_str_with(content: &str, options: Options) -> (r: Result<(NumberBuf, CodeMap), Error>)
        ensures
            match number_doc_spec(str_input(content@, options)) {
                Ok((n, cm)) => r matches Ok((num, map)) && num@ == n && map@ == cm,
                Err(e) => r == Err::<(NumberBuf, CodeMap), Error>(e),
            },
    {
        let chars = str_chars(content);
        let byte_len = content.as_bytes().len();
        proof {
            lemma_byte_offset_encode(content@);
            assert(byte_offset(chars@, chars@.len() as int) == byte_len);
        }
        parse_number_chars(chars.as_slice(), false, options)
    }

    fn parse_slice(content: &[u8]) -> (r: Result<(NumberBuf, CodeMap), Error>)
        ensures
            match number_doc_spec(slice_input(content@, default_options())) {
                Ok((n, cm)) => r matches Ok((num, map)) && num@ == n && map@ == cm,
                Err(e) => r == Err::<(NumberBuf, CodeMap), Error>(e),
            },
    {
        Self::parse_slice_with(content, Options::strict())
    }

    fn parse_slice_with(content: &[u8], options: Options) -> (r: Result<(NumberBuf, CodeMap), Error>)
        ensures
            match number_doc_spec(slice_input(content@, options)) {
                Ok((n, cm)) => r matches Ok((num, map)) && num@ == n && map@ == cm,
                Err(e) => r == Err::<(NumberBuf, CodeMap), Error>(e),
            },
    {
        let (chars, stream_error) = decode_utf8_prefix(content);
        parse_number_chars(chars.as_slice(), stream_error, options)
    }
}

impl Parse for String {
    fn parse_str(content: &str) -> (r: Result<(String, CodeMap), Error>)
        ensures
            match string_doc_spec(str_input(content@, default_options())) {
                Ok((st, cm)) => r matches Ok((res, map)) && res@ == st && map@ == cm,
                Err(e) => r == Err::<(String, CodeMap), Error>(e),
            },
    {
        Self::parse_str_with(content, Options::strict())
    }

    fn parse_str_with(content: &str, options: Options) -> (r: Result<(String, CodeMap), Error>)
        ensures
            match string_doc_spec(str_input(content@, options)) {
                Ok((st, cm)) => r matches Ok((res, map)) && res@ == st && map@ == cm,
                Err(e) => r == Err::<(String, CodeMap), Error>(e),
            },
    {
        let chars = str_chars(content);
        let byte_len = content.as_bytes().len();
        proof {
            lemma_byte_offset_encode(content@);
            assert(byte_offset(chars@, chars@.len() as int) == byte_len);
        }
        parse_string_chars(chars.as_slice(), false, options)
    }

    fn parse_slice(content: &[u8]) -> (r: Result<(String, CodeMap), Error>)
        ensures
            match string_doc_spec(slice_input(content@, default_options())) {
                Ok((st, cm)) => r matches Ok((res, map)) && res@ == st && map@ == cm,
                Err(e) => r == Err::<(String, CodeMap), Error>(e),
            },
    {
        Self::parse_slice_with(content, Options::strict())
    }

    fn parse_slice_with(content: &[u8], options: Options) -> (r: Result<(String, CodeMap), Error>)
        ensures
            match string_doc_spec(slice_input(content@, options)) {
                Ok((st, cm)) => r matches Ok((res, map)) && res@ == st && map@ == cm,
                Err(e) => r == Err::<(String, CodeMap), Error>(e),
            },
    {
        let (chars, stream_error) = decode_utf8_prefix(content);
        parse_string_chars(chars.as_slice(), stream_error, options)
    }
}

impl core::str::FromStr for Value {
    type Err = Error;

    /// The value of the document `s`, parsed with the default options.
    fn from_str(s: &str) -> (r: Result<Value, Error>)
        ensures
            match parse_spec(str_input(s@, default_options())) {
                Ok((v, _)) => r matches Ok(val) && val.view_json() == v,
                Err(e) => r == Err::<Value, Error>(e),
            },
    {
        match Value::parse_str(s) {
            Ok((v, _)) => Ok(v),
            Err(e) => Err(e),
        }
    }
}

} // verus!
