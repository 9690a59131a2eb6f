//! Texts by the bytes of their UTF-8 form.

use crate::text::owned;
use vstd::prelude::*;
use vstd::utf8::{
    decode_utf8, encode_utf8, encode_utf8_decode_utf8, encode_utf8_valid_utf8, is_char_boundary,
    is_char_boundary_iff_not_is_continuation_byte, is_char_boundary_start_end_of_seq, valid_utf8,
};

verus! {

/// The bytes of a text that is put together are those of its parts.
pub proof fn lemma_encode_concat(a: Seq<char>, b: Seq<char>)
    ensures
        encode_utf8(a + b) == encode_utf8(a) + encode_utf8(b),
    decreases a.len(),
{
    if a.len() == 0 {
        assert(a + b =~= b);
        assert(encode_utf8(a) + encode_utf8(b) =~= encode_utf8(b));
    } else {
        assert((a + b).drop_first() =~= a.drop_first() + b);
        lemma_encode_concat(a.drop_first(), b);
        assert(encode_utf8(a + b) =~= encode_utf8(a) + encode_utf8(b));
    }
}

/// Texts with the same bytes are the same.
pub proof fn lemma_encode_injective(a: Seq<char>, b: Seq<char>)
    requires
        encode_utf8(a) == encode_utf8(b),
    ensures
        a == b,
{
    encode_utf8_decode_utf8(a);
    encode_utf8_decode_utf8(b);
}

/// A place where a text may be cut stays one when the text is cut further on.
pub proof fn lemma_boundary_in_prefix(s: Seq<u8>, t: Seq<u8>, from: int, to: int)
    requires
        valid_utf8(s),
        valid_utf8(t),
        0 <= from <= to <= s.len(),
        t == s.subrange(0, to),
        is_char_boundary(s, from),
    ensures
        is_char_boundary(t, from),
{
    if from < to {
        is_char_boundary_iff_not_is_continuation_byte(s, from);
        is_char_boundary_iff_not_is_continuation_byte(t, from);
        assert(t[from] == s[from]);
    } else {
        is_char_boundary_start_end_of_seq(t);
    }
}

/// The text whose bytes are those of `s` from `from` to `to`.
pub fn slice_bytes(s: &str, from: usize, to: usize) -> (r: String)
    requires
        from <= to <= encode_utf8(s@).len(),
        is_char_boundary(encode_utf8(s@), from as int),
        is_char_boundary(encode_utf8(s@), to as int),
    ensures
        encode_utf8(r@) == encode_utf8(s@).subrange(from as int, to as int),
{
    let ghost all = encode_utf8(s@);
    proof {
        encode_utf8_valid_utf8(s@);
    }
    let (head, _) = s.split_at(to);
    proof {
        encode_utf8_valid_utf8(head@);
        lemma_boundary_in_prefix(all, encode_utf8(head@), from as int, to as int);
    }
    let (_, part) = head.split_at(from);
    proof {
        assert(encode_utf8(part@) =~= all.subrange(from as int, to as int));
    }
    owned(part)
}

/// The text that `String::from_utf8_lossy` makes of bytes.
pub uninterp spec fn utf8_lossy(bytes: Seq<u8>) -> Seq<char>;

/// Reads bytes as text with `String::from_utf8_lossy`: what is no UTF-8 becomes replacement
/// characters, and bytes that are UTF-8 throughout keep their text.
#[verifier::external_body]
pub(crate) fn text_from_bytes(bytes: &Vec<u8>) -> (r: String)
    ensures
        r@ == utf8_lossy(bytes@),
        valid_utf8(bytes@) ==> r@ == decode_utf8(bytes@),
{
    String::from_utf8_lossy(bytes).into_owned()
}

} // verus!
