//! UTF-8 bytes: where characters begin, which pieces of a text are text
//! themselves, and strings cut and joined by their bytes.

use vstd::prelude::*;
use vstd::string::StringExecFns;
use vstd::utf8::{
    valid_utf8,
    encode_utf8,
    encode_utf8_valid_utf8,
    is_char_boundary,
    is_continuation_byte,
    valid_utf8_split,
    is_char_boundary_start_end_of_seq,
    is_char_boundary_iff_not_is_continuation_byte,
};

verus! {

/// A position of a UTF-8 text lies between two characters exactly if it is
/// the end of the text or the byte there does not continue a character.
pub proof fn lemma_boundary_is_local(bytes: Seq<u8>, at: int)
    requires
        valid_utf8(bytes),
        0 <= at <= bytes.len(),
    ensures
        is_char_boundary(bytes, at) <==> (at == bytes.len() || !is_continuation_byte(bytes[at])),
{
    if at == bytes.len() {
        is_char_boundary_start_end_of_seq(bytes);
    } else {
        is_char_boundary_iff_not_is_continuation_byte(bytes, at);
    }
}

/// The bytes of a UTF-8 text between two positions that lie between
/// characters are UTF-8.
pub proof fn lemma_valid_between(bytes: Seq<u8>, from: int, to: int)
    requires
        valid_utf8(bytes),
        0 <= from <= to <= bytes.len(),
        is_char_boundary(bytes, from),
        is_char_boundary(bytes, to),
    ensures
        valid_utf8(bytes.subrange(from, to)),
{
    valid_utf8_split(bytes, from);
    let rest = bytes.subrange(from, bytes.len() as int);
    lemma_boundary_is_local(bytes, to);
    lemma_boundary_is_local(rest, to - from);
    valid_utf8_split(rest, to - from);
    assert(rest.subrange(0, to - from) =~= bytes.subrange(from, to));
}

/// A position in a piece of a UTF-8 text, the piece being UTF-8 itself, lies
/// between two characters of the piece if it does so in the text.
pub proof fn lemma_boundary_in_piece(bytes: Seq<u8>, from: int, to: int, piece: Seq<u8>, at: int)
    requires
        valid_utf8(bytes),
        valid_utf8(piece),
        0 <= from <= at <= to <= bytes.len(),
        bytes.subrange(from, to) == piece,
        is_char_boundary(bytes, at),
    ensures
        is_char_boundary(piece, at - from),
{
    lemma_boundary_is_local(bytes, at);
    lemma_boundary_is_local(piece, at - from);
    if at < to {
        assert(piece[at - from] == bytes.subrange(from, to)[at - from]);
    }
}

/// The bytes of two strings, one behind the other, are the bytes of the
/// first and then those of the second.
pub proof fn lemma_encode_concat(a: Seq<char>, b: Seq<char>)
    ensures
        encode_utf8(a + b) == encode_utf8(a) + encode_utf8(b),
    decreases a.len(),
{
    if a.len() == 0 {
        assert(a + b =~= b);
        assert(encode_utf8(a) + encode_utf8(b) =~= encode_utf8(b));
    } else {
        assert((a + b).drop_first() =~= a.drop_first() + b);
        lemma_encode_concat(a.drop_first(), b);
        assert(encode_utf8(a + b) =~= encode_utf8(a) + encode_utf8(b));
    }
}

/// Appends `more` to `buf`.
pub(crate) fn push_text(buf: &mut String, more: &str)
    ensures
        encode_utf8(final(buf)@) == encode_utf8(old(buf)@) + encode_utf8(more@),
{
    proof {
        lemma_encode_concat(buf@, more@);
    }
    buf.append(more);
}

/// The number of bytes of `s`.
pub(crate) fn text_len(s: &str) -> (len: usize)
    ensures
        len == encode_utf8(s@).len(),
{
    s.as_bytes().len()
}

/// The part of `s` from the byte `at` on, which lies between two characters.
pub(crate) fn text_from<'a>(s: &'a str, at: usize) -> (rest: &'a str)
    requires
        is_char_boundary(encode_utf8(s@), at as int),
    ensures
        at <= encode_utf8(s@).len(),
        encode_utf8(rest@) == encode_utf8(s@).subrange(at as int, encode_utf8(s@).len() as int),
{
    proof {
        encode_utf8_valid_utf8(s@);
        lemma_boundary_is_local(encode_utf8(s@), 0);
    }
    s.split_at(at).1
}

/// The part of `s` before the byte `at`, which lies between two characters.
pub(crate) fn text_before<'a>(s: &'a str, at: usize) -> (head: &'a str)
    requires
        is_char_boundary(encode_utf8(s@), at as int),
    ensures
        at <= encode_utf8(s@).len(),
        encode_utf8(head@) == encode_utf8(s@).subrange(0, at as int),
{
    proof {
        encode_utf8_valid_utf8(s@);
        lemma_boundary_is_local(encode_utf8(s@), 0);
    }
    s.split_at(at).0
}

} // verus!
