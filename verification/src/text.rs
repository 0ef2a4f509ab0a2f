//! Text addressed by byte offset.
//!
//! A document's text is a sequence of characters, but edits name places in it
//! by offsets into its UTF-8 encoding. This module says what it means to
//! replace a range of those bytes, and shows that doing so between character
//! boundaries never leaves a broken character behind.

use vstd::prelude::*;
use vstd::utf8::*;

verus! {

/// `offset` falls between two characters of `text`, or at one of its ends,
/// counted in bytes of the UTF-8 encoding.
pub open spec fn is_boundary(text: Seq<char>, offset: int) -> bool {
    is_char_boundary(encode_utf8(text), offset)
}

/// `bytes` with the range `start..end` taken out and `piece` put in its place.
pub open spec fn splice(bytes: Seq<u8>, start: int, end: int, piece: Seq<u8>) -> Seq<u8> {
    bytes.subrange(0, start) + piece + bytes.subrange(end, bytes.len() as int)
}

/// The text whose encoding is that of `text` with the bytes `start..end`
/// replaced by the encoding of `piece`.
pub open spec fn replace_bytes(text: Seq<char>, start: int, end: int, piece: Seq<char>) -> Seq<
    char,
> {
    decode_utf8(splice(encode_utf8(text), start, end, encode_utf8(piece)))
}

/// The characters of `text` that lie before byte `offset`.
pub open spec fn text_before(text: Seq<char>, offset: int) -> Seq<char> {
    decode_utf8(encode_utf8(text).subrange(0, offset))
}

/// The characters of `text` that lie at or after byte `offset`.
pub open spec fn text_from(text: Seq<char>, offset: int) -> Seq<char> {
    decode_utf8(encode_utf8(text).subrange(offset, encode_utf8(text).len() as int))
}

/// A boundary lies within the text.
pub proof fn lemma_boundary_in_range(text: Seq<char>, offset: int)
    requires
        is_boundary(text, offset),
    ensures
        0 <= offset <= encode_utf8(text).len(),
{
    encode_utf8_valid_utf8(text);
}

/// Encoding goes through concatenation.
pub proof fn lemma_encode_concat(a: Seq<char>, b: Seq<char>)
    ensures
        encode_utf8(a + b) == encode_utf8(a) + encode_utf8(b),
    decreases a.len(),
{
    if a.len() == 0 {
        assert(a + b =~= b);
        assert(encode_utf8(a) + encode_utf8(b) =~= encode_utf8(b));
    } else {
        lemma_encode_concat(a.drop_first(), b);
        assert((a + b).drop_first() =~= a.drop_first() + b);
        assert(encode_utf8(a + b) =~= encode_utf8(a) + encode_utf8(b));
    }
}

/// Two texts with the same encoding are the same text.
pub proof fn lemma_encode_injective(a: Seq<char>, b: Seq<char>)
    requires
        encode_utf8(a) == encode_utf8(b),
    ensures
        a == b,
{
    encode_utf8_decode_utf8(a);
    encode_utf8_decode_utf8(b);
}

/// Replacing a range that starts and ends on a boundary leaves well-formed
/// text: the encoding of the result is exactly the spliced bytes, so no
/// character is cut in two.
pub proof fn lemma_replace_bytes_encoding(text: Seq<char>, start: int, end: int, piece: Seq<char>)
    requires
        is_boundary(text, start),
        is_boundary(text, end),
        start <= end,
    ensures
        valid_utf8(splice(encode_utf8(text), start, end, encode_utf8(piece))),
        encode_utf8(replace_bytes(text, start, end, piece)) == splice(
            encode_utf8(text),
            start,
            end,
            encode_utf8(piece),
        ),
{
    let bytes = encode_utf8(text);
    encode_utf8_valid_utf8(text);
    encode_utf8_valid_utf8(piece);
    valid_utf8_split(bytes, start);
    valid_utf8_split(bytes, end);
    valid_utf8_concat(bytes.subrange(0, start), encode_utf8(piece));
    valid_utf8_concat(
        bytes.subrange(0, start) + encode_utf8(piece),
        bytes.subrange(end, bytes.len() as int),
    );
    decode_utf8_encode_utf8(splice(bytes, start, end, encode_utf8(piece)));
}

/// The same replacement read as characters: what stood before `start`, then
/// `piece`, then what stood from `end` on.
pub proof fn lemma_replace_bytes_chars(text: Seq<char>, start: int, end: int, piece: Seq<char>)
    requires
        is_boundary(text, start),
        is_boundary(text, end),
        start <= end,
    ensures
        replace_bytes(text, start, end, piece) == text_before(text, start) + piece + text_from(
            text,
            end,
        ),
{
    let bytes = encode_utf8(text);
    let head = bytes.subrange(0, start);
    let tail = bytes.subrange(end, bytes.len() as int);
    encode_utf8_valid_utf8(text);
    valid_utf8_split(bytes, start);
    valid_utf8_split(bytes, end);
    decode_utf8_encode_utf8(head);
    decode_utf8_encode_utf8(tail);
    lemma_encode_concat(decode_utf8(head), piece);
    lemma_encode_concat(decode_utf8(head) + piece, decode_utf8(tail));
    encode_utf8_decode_utf8(decode_utf8(head) + piece + decode_utf8(tail));
}

/// Whether two string slices hold the same text.
pub fn str_eq(a: &str, b: &str) -> (same: bool)
    ensures
        same == (a@ == b@),
{
    let x = a.as_bytes();
    let y = b.as_bytes();
    if x.len() != y.len() {
        return false;
    }
    let mut i: usize = 0;
    while i < x.len()
        invariant
            i <= x.len(),
            x.len() == y.len(),
            x@ == encode_utf8(a@),
            y@ == encode_utf8(b@),
            forall|j: int| 0 <= j < i ==> x@[j] == y@[j],
        decreases x.len() - i,
    {
        if x[i] != y[i] {
            return false;
        }
        i = i + 1;
    }
    proof {
        assert(x@ =~= y@);
        lemma_encode_injective(a@, b@);
    }
    true
}

} // verus!
