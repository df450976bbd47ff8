//! Facts that carry a statement about the bytes of a UTF-8 string over to
//! its characters, and back.
use vstd::prelude::*;
use vstd::utf8::*;
use crate::text::{is_substring, occurs_at};

verus! {

/// Encoding distributes over concatenation.
pub proof fn lemma_encode_concat(a: Seq<char>, b: Seq<char>)
    ensures
        encode_utf8(a + b) == encode_utf8(a) + encode_utf8(b),
    decreases a.len(),
{
    if a.len() == 0 {
        assert(a + b =~= b);
        assert(encode_utf8(a) + encode_utf8(b) =~= encode_utf8(b));
    } else {
        lemma_encode_concat(a.drop_first(), b);
        assert((a + b).drop_first() =~= a.drop_first() + b);
        assert(encode_utf8(a + b) =~= encode_utf8(a) + encode_utf8(b));
    }
}

/// A position up to which the bytes are themselves well-formed lies between
/// two characters.
pub proof fn lemma_valid_prefix_is_boundary(bytes: Seq<u8>, k: int)
    requires
        valid_utf8(bytes),
        0 <= k <= bytes.len(),
        valid_utf8(bytes.subrange(0, k)),
    ensures
        is_char_boundary(bytes, k),
    decreases bytes.len(),
{
    if k != 0 {
        let prefix = bytes.subrange(0, k);
        let width = length_of_first_scalar(bytes);
        assert(prefix[0] == bytes[0]);
        assert(length_of_first_scalar(prefix) == width);
        assert(width <= k);
        let rest = pop_first_scalar(bytes);
        assert(pop_first_scalar(prefix) =~= rest.subrange(0, k - width));
        lemma_valid_prefix_is_boundary(rest, k - width);
    }
}

/// Where one text occurs in another, its bytes occur in the other's bytes.
pub proof fn lemma_occurrence_to_bytes(hay: Seq<char>, needle: Seq<char>, at: int)
    requires
        occurs_at(hay, needle, at),
    ensures
        occurs_at(encode_utf8(hay), encode_utf8(needle), encode_utf8(hay.take(at)).len() as int),
{
    let before = hay.take(at);
    let after = hay.skip(at + needle.len());
    assert(hay =~= before + needle + after);
    lemma_encode_concat(before + needle, after);
    lemma_encode_concat(before, needle);
    let k = encode_utf8(before).len() as int;
    assert(encode_utf8(hay).subrange(k, k + encode_utf8(needle).len()) =~= encode_utf8(needle));
}

/// Where the bytes of a text that is not empty occur in the bytes of another,
/// they begin and end between two characters, and the text occurs in the other.
pub proof fn lemma_occurrence_from_bytes(hay: Seq<char>, needle: Seq<char>, k: int)
    requires
        needle.len() > 0,
        occurs_at(encode_utf8(hay), encode_utf8(needle), k),
    ensures
        is_char_boundary(encode_utf8(hay), k),
        occurs_at(hay, needle, decode_utf8(encode_utf8(hay).subrange(0, k)).len() as int),
{
    broadcast use {
        encode_utf8_valid_utf8,
        encode_utf8_decode_utf8,
        is_char_boundary_iff_not_is_continuation_byte,
        valid_utf8_split,
        decode_utf8_split,
    };

    let hb = encode_utf8(hay);
    let nb = encode_utf8(needle);
    encode_utf8_first_scalar(needle);
    assert(nb.len() > 0);
    assert(hb.subrange(k, k + nb.len())[0] == nb[0]);
    assert(!is_continuation_byte(hb[k]));
    assert(is_char_boundary(hb, k));
    let tail = hb.subrange(k, hb.len() as int);
    assert(valid_utf8(tail));
    assert(tail.subrange(0, nb.len() as int) =~= nb);
    lemma_valid_prefix_is_boundary(tail, nb.len() as int);
    let before = decode_utf8(hb.subrange(0, k));
    let after = decode_utf8(tail.subrange(nb.len() as int, tail.len() as int));
    assert(decode_utf8(tail) =~= needle + after);
    assert(hay =~= before + (needle + after));
    assert(hay.subrange(before.len() as int, before.len() as int + needle.len()) =~= needle);
}

/// One text occurs in another exactly when its bytes occur in the other's bytes.
pub proof fn lemma_substring_of_bytes(hay: Seq<char>, needle: Seq<char>)
    ensures
        is_substring(encode_utf8(hay), encode_utf8(needle)) <==> is_substring(hay, needle),
{
    if is_substring(hay, needle) {
        let at = choose|at: int| occurs_at(hay, needle, at);
        lemma_occurrence_to_bytes(hay, needle, at);
    }
    if is_substring(encode_utf8(hay), encode_utf8(needle)) {
        let k = choose|k: int| occurs_at(encode_utf8(hay), encode_utf8(needle), k);
        if needle.len() == 0 {
            assert(hay.subrange(0, 0) =~= needle);
            assert(occurs_at(hay, needle, 0));
        } else {
            lemma_occurrence_from_bytes(hay, needle, k);
        }
    }
}

/// Whether a character is encoded as one byte, which then has its value.
pub open spec fn is_ascii_char(c: char) -> bool {
    c as u32 <= 0x7f
}

/// One-byte characters with the same byte are the same character.
pub proof fn lemma_ascii_char_of_byte(a: char, b: char)
    requires
        is_ascii_char(a),
        is_ascii_char(b),
        a as u8 == b as u8,
    ensures
        a == b,
{
    assert(a as u32 == (a as u8) as u32);
    assert(b as u32 == (b as u8) as u32);
    char_u32_cast(a, a as u32);
    char_u32_cast(b, b as u32);
}

/// Two texts with the same bytes are the same text.
pub proof fn lemma_encode_injective(a: Seq<char>, b: Seq<char>)
    requires
        encode_utf8(a) == encode_utf8(b),
    ensures
        a == b,
{
    encode_utf8_decode_utf8(a);
    encode_utf8_decode_utf8(b);
}

/// A text whose bytes are cut in two, each part the bytes of a text, is those
/// two texts one after the other.
pub proof fn lemma_split_views(whole: Seq<char>, left: Seq<char>, right: Seq<char>, mid: int)
    requires
        0 <= mid <= encode_utf8(whole).len(),
        encode_utf8(left) == encode_utf8(whole).subrange(0, mid),
        encode_utf8(right) == encode_utf8(whole).subrange(mid, encode_utf8(whole).len() as int),
    ensures
        whole == left + right,
{
    lemma_encode_concat(left, right);
    assert(encode_utf8(left + right) =~= encode_utf8(whole));
    lemma_encode_injective(left + right, whole);
}

/// The encoding of a single one-byte character.
pub proof fn lemma_encode_ascii_char(c: char)
    requires
        is_ascii_char(c),
    ensures
        encode_utf8(seq![c]) == seq![c as u8],
{
    let v = c as u32;
    assert(leading_byte_width_1(v) == v as u8) by (bit_vector)
        requires
            v <= 0x7f,
    ;
    assert(seq![c].drop_first() =~= Seq::<char>::empty());
    reveal_with_fuel(encode_utf8, 2);
    assert(encode_utf8(seq![c]) =~= seq![c as u8]);
}

/// A one-byte character in a text is found again, as its byte, in the text's
/// bytes.
pub proof fn lemma_ascii_char_to_byte(text: Seq<char>, j: int)
    requires
        0 <= j < text.len(),
        is_ascii_char(text[j]),
    ensures
        encode_utf8(text.take(j)).len() < encode_utf8(text).len(),
        encode_utf8(text)[encode_utf8(text.take(j)).len() as int] == text[j] as u8,
{
    let c = text[j];
    let before = text.take(j);
    let after = text.skip(j + 1);
    assert(text =~= before + seq![c] + after);
    lemma_encode_concat(before + seq![c], after);
    lemma_encode_concat(before, seq![c]);
    lemma_encode_ascii_char(c);
}

/// A byte below 0x80 among a text's bytes is a character of the text by
/// itself: the bytes before it are those of the characters before it.
pub proof fn lemma_ascii_byte_to_char(text: Seq<char>, k: int) -> (j: int)
    requires
        0 <= k < encode_utf8(text).len(),
        encode_utf8(text)[k] <= 0x7f,
    ensures
        0 <= j < text.len(),
        is_ascii_char(text[j]),
        text[j] as u8 == encode_utf8(text)[k],
        encode_utf8(text.take(j)) == encode_utf8(text).subrange(0, k),
        encode_utf8(text.skip(j + 1)) == encode_utf8(text).subrange(
            k + 1,
            encode_utf8(text).len() as int,
        ),
        is_char_boundary(encode_utf8(text), k),
        is_char_boundary(encode_utf8(text), k + 1),
{
    broadcast use {
        encode_utf8_valid_utf8,
        encode_utf8_decode_utf8,
        decode_utf8_encode_utf8,
        is_char_boundary_iff_not_is_continuation_byte,
        is_char_boundary_start_end_of_seq,
        valid_utf8_split,
        decode_utf8_split,
    };

    let bytes = encode_utf8(text);
    let b = bytes[k];
    assert(!is_continuation_byte(bytes[k]));
    is_char_boundary_iff_not_is_continuation_byte(bytes, k);
    let head = bytes.subrange(0, k);
    let tail = bytes.subrange(k, bytes.len() as int);
    assert(tail[0] == b);
    assert(is_leading_byte_width_1(tail[0]));
    assert(valid_utf8(tail));
    assert(pop_first_scalar(tail) =~= bytes.subrange(k + 1, bytes.len() as int));
    let rest = pop_first_scalar(tail);
    assert(valid_utf8(rest));
    let v = decode_first_scalar(tail);
    assert(v == b as u32) by (bit_vector)
        requires
            v == (b & 0x7F) as u32,
            b <= 0x7f,
    ;
    let c = v as char;
    assert(decode_utf8(tail) =~= seq![c] + decode_utf8(rest));
    assert(text =~= decode_utf8(head) + (seq![c] + decode_utf8(rest)));
    let j = decode_utf8(head).len() as int;
    assert(text[j] == c);
    assert(c as u32 == v);
    assert(text.take(j) =~= decode_utf8(head));
    assert(text.skip(j + 1) =~= decode_utf8(rest));
    if k + 1 < bytes.len() {
        assert(tail.subrange(0, 1) =~= seq![b]);
        lemma_encode_ascii_char(c);
        lemma_valid_prefix_is_boundary(tail, 1);
        lemma_boundary_after(bytes, k, 1);
    }
    j
}

/// A boundary of what follows a boundary is a boundary of the whole.
pub proof fn lemma_boundary_after(bytes: Seq<u8>, k: int, more: int)
    requires
        valid_utf8(bytes),
        is_char_boundary(bytes, k),
        0 <= k <= bytes.len(),
        0 <= more <= bytes.len() - k,
        is_char_boundary(bytes.subrange(k, bytes.len() as int), more),
    ensures
        is_char_boundary(bytes, k + more),
{
    broadcast use {valid_utf8_split, valid_utf8_concat};

    let tail = bytes.subrange(k, bytes.len() as int);
    assert(valid_utf8(tail));
    assert(valid_utf8(tail.subrange(0, more)));
    assert(bytes.subrange(0, k + more) =~= bytes.subrange(0, k) + tail.subrange(0, more));
    lemma_valid_prefix_is_boundary(bytes, k + more);
}

/// A one-byte character is in a text exactly when its byte is among the
/// text's bytes.
pub proof fn lemma_ascii_char_in_bytes(text: Seq<char>, c: char)
    requires
        is_ascii_char(c),
    ensures
        text.contains(c) <==> encode_utf8(text).contains(c as u8),
{
    if text.contains(c) {
        let j = choose|j: int| 0 <= j < text.len() && text[j] == c;
        lemma_ascii_char_to_byte(text, j);
    }
    if encode_utf8(text).contains(c as u8) {
        let k = choose|k: int| 0 <= k < encode_utf8(text).len() && encode_utf8(text)[k] == c as u8;
        let j = lemma_ascii_byte_to_char(text, k);
        lemma_ascii_char_of_byte(text[j], c);
    }
}

} // verus!
