//! UTF-8: byte offsets of characters, and decoding of byte slices with the
//! `utf8_decode` crate.
use vstd::prelude::*;
use vstd::utf8::{
    encode_utf8, encode_scalar, valid_utf8, decode_utf8, valid_first_scalar, decode_first_scalar,
    length_of_first_scalar, pop_first_scalar, char_is_scalar,
};
use super::grammar::{byte_offset, utf8_width};

verus! {

/// The UTF-8 width of a character is the length of its encoding.
pub proof fn lemma_utf8_width(c: char)
    ensures
        utf8_width(c) == encode_scalar(c as u32).len(),
{
    char_is_scalar(c);
}

/// The byte offset of index `i`, plus the length of the encoding of what
/// follows, is the length of the whole encoding.
pub proof fn lemma_byte_offset_split(s: Seq<char>, i: int)
    requires
        0 <= i <= s.len(),
    ensures
        byte_offset(s, i) + encode_utf8(s.subrange(i, s.len() as int)).len() == encode_utf8(s).len(),
    decreases i,
{
    if i == 0 {
        assert(s.subrange(0, s.len() as int) =~= s);
    } else {
        lemma_byte_offset_split(s, i - 1);
        let t = s.subrange(i - 1, s.len() as int);
        assert(t.drop_first() =~= s.subrange(i, s.len() as int));
        assert(t[0] == s[i - 1]);
        lemma_utf8_width(s[i - 1]);
    }
}

/// The byte offset of the end of `s` is the length of its UTF-8 encoding.
pub proof fn lemma_byte_offset_encode(s: Seq<char>)
    ensures
        byte_offset(s, s.len() as int) == encode_utf8(s).len(),
{
    lemma_byte_offset_split(s, s.len() as int);
    assert(s.subrange(s.len() as int, s.len() as int) =~= Seq::<char>::empty());
}

/// Byte offsets only depend on the characters before them.
pub proof fn lemma_byte_offset_push(s: Seq<char>, c: char, i: int)
    requires
        0 <= i <= s.len(),
    ensures
        byte_offset(s.push(c), i) == byte_offset(s, i),
    decreases i,
{
    if i > 0 {
        lemma_byte_offset_push(s, c, i - 1);
    }
}

/// `b` is a UTF-8 continuation byte (`10xxxxxx`).
pub open spec fn is_cont(b: u8) -> bool {
    b & 0xC0 == 0x80
}

/// The six data bits of the continuation byte `b`.
pub open spec fn cont_bits(b: u8) -> u32 {
    (b & 0x3F) as u32
}

/// The codepoint that the bit patterns at the front of `s` (not empty)
/// encode, with the number of bytes that it takes; `Err` where the first
/// byte leads no sequence, or a byte that should continue it does not (or
/// is missing).
pub open spec fn decode_front(s: Seq<u8>) -> Result<(u32, int), ()> {
    let a = s[0];
    if a & 0x80 == 0x00 {
        Ok((a as u32, 1))
    } else if a & 0xE0 == 0xC0 {
        if s.len() >= 2 && is_cont(s[1]) {
            Ok(((((a & 0x1F) as u32) << 6) | cont_bits(s[1]), 2))
        } else {
            Err(())
        }
    } else if a & 0xF0 == 0xE0 {
        if s.len() >= 3 && is_cont(s[1]) && is_cont(s[2]) {
            Ok(((((a & 0x0F) as u32) << 12) | (cont_bits(s[1]) << 6) | cont_bits(s[2]), 3))
        } else {
            Err(())
        }
    } else if a & 0xF8 == 0xF0 {
        if s.len() >= 4 && is_cont(s[1]) && is_cont(s[2]) && is_cont(s[3]) {
            Ok(
                (
                    (((a & 0x07) as u32) << 18) | (cont_bits(s[1]) << 12) | (cont_bits(s[2]) << 6)
                        | cont_bits(s[3]),
                    4,
                ),
            )
        } else {
            Err(())
        }
    } else {
        Err(())
    }
}

/// `cp` is a Unicode scalar value: what `char::try_from` accepts.
pub open spec fn is_scalar(cp: u32) -> bool {
    cp < 0xD800 || (0xE000 <= cp && cp <= 0x10FFFF)
}

/// What `utf8_decode::decode` gives on the bytes `bytes[pos..]`: `None` at
/// their end; else the character that their front encodes, with the number
/// of bytes left after it; or an error where the bit patterns break or the
/// codepoint is no scalar value.
pub open spec fn utf8_decode_step(bytes: Seq<u8>, pos: usize) -> Option<Result<(char, usize), ()>> {
    if pos >= bytes.len() {
        None
    } else {
        let s = bytes.subrange(pos as int, bytes.len() as int);
        match decode_front(s) {
            Ok((cp, k)) => if is_scalar(cp) {
                Some(Ok((cp as char, (s.len() - k) as usize)))
            } else {
                Some(Err(()))
            },
            Err(_) => Some(Err(())),
        }
    }
}

/// `utf8_decode::decode` on the bytes of `bytes` from `pos`, through an
/// iterator over them.
///
/// The contract claims that the result is [`utf8_decode_step`], which
/// follows the bit patterns that the crate's `decode_from` tests and the
/// codepoint check of `char::try_from`.
#[verifier::external_body]
fn decode_char_at(bytes: &[u8], pos: usize) -> (r: Option<Result<(char, usize), ()>>)
    requires
        pos <= bytes@.len(),
    ensures
        r == utf8_decode_step(bytes@, pos),
{
    let mut it = bytes[pos..].iter().copied();
    let c = utf8_decode::decode(&mut it);
    let left = it.len();
    match c {
        None => None,
        Some(Ok(c)) => Some(Ok((c, left))),
        Some(Err(_)) => Some(Err(())),
    }
}

proof fn lemma_byte_patterns(a: u8)
    by (bit_vector)
    ensures
        (a & 0x80 == 0x00) == (a <= 0x7f),
        (a & 0xE0 == 0xC0) == (0xc0 <= a && a <= 0xdf),
        (a & 0xF0 == 0xE0) == (0xe0 <= a && a <= 0xef),
        (a & 0xF8 == 0xF0) == (0xf0 <= a && a <= 0xf7),
        (a & 0xC0 == 0x80) == (0x80 <= a && a <= 0xbf),
        a <= 0x7f ==> (a & 0x7F) as u32 == a as u32,
{
}

proof fn lemma_codepoint_bounds(a: u8, b: u8, c: u8)
    by (bit_vector)
    ensures
        ((((a & 0x1F) as u32) << 6) | ((b & 0x3F) as u32)) < 0x800,
        ((((a & 0x0F) as u32) << 12) | (((b & 0x3F) as u32) << 6) | ((c & 0x3F) as u32))
            < 0x10000,
{
}

/// What one decoding step gives: `None` exactly at the end; a character
/// that takes at least its own UTF-8 width in bytes; and, on a well-formed
/// encoding of a scalar value, that value and the bytes after it.
pub proof fn lemma_decode_step(bytes: Seq<u8>, pos: usize)
    requires
        pos <= bytes.len(),
    ensures
        utf8_decode_step(bytes, pos) is None <==> pos == bytes.len(),
        utf8_decode_step(bytes, pos) matches Some(Ok((c, n))) ==> n + utf8_width(c) <= bytes.len()
            - pos,
        pos < bytes.len() && valid_first_scalar(bytes.subrange(pos as int, bytes.len() as int))
            ==> utf8_decode_step(bytes, pos) == Some(
            Ok::<(char, usize), ()>(
                (
                    decode_first_scalar(bytes.subrange(pos as int, bytes.len() as int)) as char,
                    (bytes.len() - pos - length_of_first_scalar(
                        bytes.subrange(pos as int, bytes.len() as int),
                    )) as usize,
                ),
            ),
        ),
{
    if pos < bytes.len() {
        let s = bytes.subrange(pos as int, bytes.len() as int);
        lemma_byte_patterns(s[0]);
        if s.len() >= 2 {
            lemma_byte_patterns(s[1]);
        }
        if s.len() >= 3 {
            lemma_byte_patterns(s[2]);
            lemma_codepoint_bounds(s[0], s[1], s[2]);
        } else if s.len() >= 2 {
            lemma_codepoint_bounds(s[0], s[1], s[1]);
        }
        if s.len() >= 4 {
            lemma_byte_patterns(s[3]);
        }
    }
}

/// The characters that `utf8_decode` reads from `bytes[pos..]` before its
/// first error, and whether there is such an error.
pub open spec fn utf8_decoded(bytes: Seq<u8>, pos: int) -> (Seq<char>, bool)
    decreases bytes.len() - pos,
{
    if pos < 0 || pos >= bytes.len() {
        (Seq::empty(), false)
    } else {
        match utf8_decode_step(bytes, pos as usize) {
            Some(Ok((c, n))) => if n < bytes.len() - pos {
                let rest = utf8_decoded(bytes, bytes.len() - n);
                (seq![c] + rest.0, rest.1)
            } else {
                (Seq::empty(), false)
            },
            Some(Err(_)) => (Seq::empty(), true),
            None => (Seq::empty(), false),
        }
    }
}

/// Decodes `bytes` up to the first error: the characters, and whether an
/// error follows them.
pub fn decode_utf8_prefix(bytes: &[u8]) -> (r: (Vec<char>, bool))
    ensures
        (r.0@, r.1) == utf8_decoded(bytes@, 0),
        byte_offset(r.0@, r.0@.len() as int) <= bytes@.len(),
        byte_offset(r.0@, r.0@.len() as int) <= usize::MAX,
        valid_utf8(bytes@) ==> r.0@ == decode_utf8(bytes@) && !r.1,
{
    let mut chars: Vec<char> = Vec::new();
    let mut pos: usize = 0;
    proof {
        assert(bytes@.subrange(0, bytes@.len() as int) =~= bytes@);
        assert(chars@ + decode_utf8(bytes@) =~= decode_utf8(bytes@));
        assert(chars@ + utf8_decoded(bytes@, 0).0 =~= utf8_decoded(bytes@, 0).0);
    }
    loop
        invariant
            pos <= bytes@.len(),
            utf8_decoded(bytes@, 0) == (
                chars@ + utf8_decoded(bytes@, pos as int).0,
                utf8_decoded(bytes@, pos as int).1,
            ),
            byte_offset(chars@, chars@.len() as int) <= pos,
            valid_utf8(bytes@) ==> valid_utf8(bytes@.subrange(pos as int, bytes@.len() as int))
                && chars@ + decode_utf8(bytes@.subrange(pos as int, bytes@.len() as int))
                == decode_utf8(bytes@),
        decreases bytes@.len() - pos,
    {
        let ghost tail = bytes@.subrange(pos as int, bytes@.len() as int);
        proof {
            lemma_decode_step(bytes@, pos);
        }
        match decode_char_at(bytes, pos) {
            None => {
                assert(tail.len() == 0);
                assert(chars@ + decode_utf8(tail) =~= chars@);
                assert(chars@ + Seq::<char>::empty() =~= chars@);
                return (chars, false);
            },
            Some(Err(())) => {
                assert(chars@ + Seq::<char>::empty() =~= chars@);
                return (chars, true);
            },
            Some(Ok((c, n))) => {
                proof {
                    let rest = utf8_decoded(bytes@, bytes@.len() - n);
                    assert(chars@ + (seq![c] + rest.0) =~= chars@.push(c) + rest.0);
                    lemma_byte_offset_push(chars@, c, chars@.len() as int);
                    if valid_utf8(bytes@) {
                        let l = length_of_first_scalar(tail);
                        assert(valid_first_scalar(tail));
                        assert(pop_first_scalar(tail) =~= bytes@.subrange(pos + l, bytes@.len() as int));
                        assert(chars@ + decode_utf8(tail) =~= chars@.push(c) + decode_utf8(pop_first_scalar(tail)));
                    }
                }
                chars.push(c);
                pos = bytes.len() - n;
            },
        }
    }
}

/// The UTF-8 encoding of any character sequence is well-formed, and decodes
/// to that sequence.
pub proof fn lemma_encode_decode_utf8(s: Seq<char>)
    ensures
        valid_utf8(encode_utf8(s)),
        decode_utf8(encode_utf8(s)) == s,
{
    vstd::utf8::encode_utf8_valid_utf8(s);
    vstd::utf8::encode_utf8_decode_utf8(s);
}

} // verus!
