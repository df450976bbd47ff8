//! The lines of a text.
//!
//! A line ends at a line feed, or at the end of the text. The line feed is
//! not part of the line, nor is a carriage return that stands directly before
//! it. A carriage return anywhere else is an ordinary character. A text that
//! ends in a line feed has no empty line after it.
use vstd::prelude::*;
use vstd::string::*;
use vstd::utf8::*;
use crate::encoding::{
    is_ascii_char,
    lemma_ascii_byte_to_char,
    lemma_ascii_char_in_bytes,
    lemma_encode_ascii_char,
    lemma_encode_concat,
    lemma_encode_injective,
    lemma_split_views,
};

verus! {

/// The offset of the first line feed in `text`, or the length of `text` if it
/// holds none.
pub open spec fn first_break(text: Seq<char>) -> int
    decreases text.len(),
{
    if text.len() == 0 || text[0] == '\n' {
        0
    } else {
        1 + first_break(text.drop_first())
    }
}

/// `line` without the carriage return it ends in, if it ends in one.
pub open spec fn without_return(line: Seq<char>) -> Seq<char> {
    if line.len() > 0 && line.last() == '\r' {
        line.drop_last()
    } else {
        line
    }
}

/// The first line of a text that is not empty.
pub open spec fn first_line(text: Seq<char>) -> Seq<char> {
    let end = first_break(text);
    if end < text.len() {
        without_return(text.take(end))
    } else {
        text
    }
}

/// What follows the first line of a text and its line feed.
pub open spec fn after_first_line(text: Seq<char>) -> Seq<char> {
    let end = first_break(text);
    if end < text.len() {
        text.skip(end + 1)
    } else {
        Seq::empty()
    }
}

/// The lines of `text`, in order.
pub open spec fn lines_of(text: Seq<char>) -> Seq<Seq<char>>
    decreases text.len(),
    via lines_of_terminates
{
    if text.len() == 0 {
        Seq::empty()
    } else {
        seq![first_line(text)] + lines_of(after_first_line(text))
    }
}

#[via_fn]
proof fn lines_of_terminates(text: Seq<char>) {
    lemma_first_break_in_range(text);
}

/// `first_break` is an offset into the text, or the text's length.
pub proof fn lemma_first_break_in_range(text: Seq<char>)
    ensures
        0 <= first_break(text) <= text.len(),
    decreases text.len(),
{
    if text.len() != 0 && text[0] != '\n' {
        lemma_first_break_in_range(text.drop_first());
    }
}

/// No line feed stands before `first_break`, and one stands at it unless it
/// is the end of the text.
pub proof fn lemma_first_break_is_first(text: Seq<char>)
    ensures
        forall|j: int| 0 <= j < first_break(text) ==> text[j] != '\n',
        first_break(text) < text.len() ==> text[first_break(text)] == '\n',
    decreases text.len(),
{
    if text.len() != 0 && text[0] != '\n' {
        let rest = text.drop_first();
        lemma_first_break_in_range(rest);
        lemma_first_break_is_first(rest);
        assert forall|j: int| 0 <= j < first_break(text) implies text[j] != '\n' by {
            if j > 0 {
                assert(text[j] == rest[j - 1]);
            }
        }
        if first_break(text) < text.len() {
            assert(text[first_break(text)] == rest[first_break(rest)]);
        }
    }
}

/// `first_break` is the one offset with no line feed before it that is the
/// end of the text or holds a line feed.
pub proof fn lemma_first_break(text: Seq<char>, end: int)
    requires
        0 <= end <= text.len(),
        forall|j: int| 0 <= j < end ==> text[j] != '\n',
        end < text.len() ==> text[end] == '\n',
    ensures
        first_break(text) == end,
    decreases text.len(),
{
    if end > 0 {
        lemma_first_break(text.drop_first(), end - 1);
    }
}

/// No line of a text holds a line feed.
pub proof fn lemma_lines_hold_no_break(text: Seq<char>)
    ensures
        forall|i: int|
            0 <= i < lines_of(text).len() ==> !(#[trigger] lines_of(text)[i]).contains('\n'),
    decreases text.len(),
{
    if text.len() != 0 {
        lemma_first_break_in_range(text);
        lemma_first_break_is_first(text);
        let first = first_line(text);
        let rest = lines_of(after_first_line(text));
        lemma_lines_hold_no_break(after_first_line(text));
        if first.contains('\n') {
            let j = choose|j: int| 0 <= j < first.len() && first[j] == '\n';
            assert(first[j] == text[j]);
        }
        assert forall|i: int| 0 <= i < lines_of(text).len() implies !(#[trigger] lines_of(
            text,
        )[i]).contains('\n') by {
            if i > 0 {
                assert(lines_of(text)[i] == rest[i - 1]);
            }
        }
    }
}

/// The offset of the first `wanted` in `bytes`, or their length if there is
/// none.
fn find_byte(bytes: &[u8], wanted: u8) -> (at: usize)
    ensures
        at <= bytes@.len(),
        forall|j: int| 0 <= j < at ==> bytes@[j] != wanted,
        at < bytes@.len() ==> bytes@[at as int] == wanted,
{
    let total: usize = bytes.len();
    let mut at: usize = 0;
    while at < total && bytes[at] != wanted
        invariant
            at <= total == bytes@.len(),
            forall|j: int| 0 <= j < at ==> bytes@[j] != wanted,
        decreases total - at,
    {
        at += 1;
    }
    at
}

/// A text cut at its first line feed: the characters before it hold no line
/// feed, so that is where the first line ends.
proof fn lemma_cut_at_break(text: Seq<char>, head: Seq<char>, feed: Seq<char>, after: Seq<char>)
    requires
        text == head + feed + after,
        encode_utf8(feed) == seq![0x0Au8],
        !encode_utf8(head).contains(0x0Au8),
    ensures
        first_break(text) == head.len(),
        text.take(first_break(text)) == head,
        text.skip(first_break(text) + 1) == after,
        first_break(text) < text.len(),
{
    lemma_encode_ascii_char('\n');
    lemma_encode_injective(feed, seq!['\n']);
    lemma_ascii_char_in_bytes(head, '\n');
    let end = head.len() as int;
    assert(text[end] == '\n');
    assert forall|j: int| 0 <= j < end implies text[j] != '\n' by {
        assert(text[j] == head[j]);
    }
    lemma_first_break(text, end);
    assert(text.take(end) =~= head);
    assert(text.skip(end + 1) =~= after);
}

/// A text whose bytes hold no line feed is a single line.
proof fn lemma_no_break(text: Seq<char>)
    requires
        !encode_utf8(text).contains(0x0Au8),
    ensures
        first_break(text) == text.len(),
{
    lemma_ascii_char_in_bytes(text, '\n');
    lemma_first_break(text, text.len() as int);
}

/// The first line of `text` and what follows its line feed.
fn split_line<'a>(text: &'a str) -> (parts: (&'a str, &'a str))
    requires
        text@.len() > 0,
    ensures
        parts.0@ == first_line(text@),
        parts.1@ == after_first_line(text@),
        parts.1@.len() < text@.len(),
{
    broadcast use {
        encode_utf8_valid_utf8,
        is_char_boundary_start_end_of_seq,
        is_char_boundary_iff_not_is_continuation_byte,
        valid_utf8_split,
    };

    let bytes = text.as_bytes();
    let end = find_byte(bytes, 0x0A);
    if end == bytes.len() {
        proof {
            lemma_no_break(text@);
        }
        let (line, rest) = text.split_at(end);
        proof {
            assert(rest.spec_bytes().len() == 0);
            assert(rest@.len() == 0) by {
                if rest@.len() > 0 {
                    encode_utf8_first_scalar(rest@);
                }
            }
            assert(line.spec_bytes() =~= text.spec_bytes());
            lemma_encode_injective(line@, text@);
        }
        return (line, rest);
    }
    assert(!is_continuation_byte(bytes@[end as int]));
    let (head, tail) = text.split_at(end);
    proof {
        lemma_split_views(text@, head@, tail@, end as int);
        assert(tail.spec_bytes()[0] == 0x0Au8);
        lemma_ascii_byte_to_char(tail@, 0);
    }
    let (feed, after) = tail.split_at(1);
    proof {
        lemma_split_views(tail@, feed@, after@, 1);
        assert(feed.spec_bytes() =~= seq![0x0Au8]);
        assert(text@ =~= head@ + feed@ + after@);
        assert(!head.spec_bytes().contains(0x0Au8));
        lemma_cut_at_break(text@, head@, feed@, after@);
    }
    let line = strip_return(head);
    (line, after)
}

/// `line` without the carriage return it ends in, if it ends in one.
fn strip_return<'a>(line: &'a str) -> (stripped: &'a str)
    ensures
        stripped@ == without_return(line@),
{
    broadcast use {
        encode_utf8_valid_utf8,
        is_char_boundary_start_end_of_seq,
        is_char_boundary_iff_not_is_continuation_byte,
    };

    let bytes = line.as_bytes();
    let total: usize = bytes.len();
    if total == 0 {
        proof {
            if line@.len() > 0 {
                encode_utf8_first_scalar(line@);
            }
        }
        return line;
    }
    if bytes[total - 1] != 0x0D {
        proof {
            if line@.len() > 0 && line@.last() == '\r' {
                lemma_last_char_to_byte(line@);
            }
        }
        return line;
    }
    proof {
        lemma_ascii_byte_to_char(line@, total - 1);
    }
    let (kept, last) = line.split_at(total - 1);
    proof {
        lemma_split_views(line@, kept@, last@, total - 1);
        assert(last.spec_bytes() =~= seq![0x0Du8]);
        lemma_encode_ascii_char('\r');
        lemma_encode_injective(last@, seq!['\r']);
        assert(line@.drop_last() =~= kept@);
    }
    kept
}

/// The last byte of a text that ends in a one-byte character is that
/// character's byte.
proof fn lemma_last_char_to_byte(text: Seq<char>)
    requires
        text.len() > 0,
        is_ascii_char(text.last()),
    ensures
        encode_utf8(text).len() > 0,
        encode_utf8(text).last() == text.last() as u8,
{
    let front = text.drop_last();
    assert(text =~= front + seq![text.last()]);
    lemma_encode_concat(front, seq![text.last()]);
    lemma_encode_ascii_char(text.last());
}

/// The lines of `contents`, in order, each a part of `contents` itself.
pub fn lines<'a>(contents: &'a str) -> (found: Vec<&'a str>)
    ensures
        found.deep_view() == lines_of(contents@),
{
    let mut found: Vec<&'a str> = Vec::new();
    let mut rest: &'a str = contents;
    assert(found.deep_view() =~= Seq::<Seq<char>>::empty());
    while !rest.is_empty()
        invariant
            lines_of(contents@) == found.deep_view() + lines_of(rest@),
        decreases rest@.len(),
    {
        let ghost before = found.deep_view();
        let (line, tail) = split_line(rest);
        found.push(line);
        proof {
            assert(found.deep_view() =~= before.push(line@));
            assert(before + lines_of(rest@) =~= before.push(line@) + lines_of(tail@));
        }
        rest = tail;
    }
    assert(found.deep_view() + lines_of(rest@) =~= found.deep_view());
    found
}

} // verus!
