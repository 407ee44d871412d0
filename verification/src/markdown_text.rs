//! The pieces of text that markdown rendering cuts and mends.

use vstd::prelude::*;
use vstd::string::*;
use vstd::utf8::decode_utf8;
use vstd::utf8::encode_utf8;
use vstd::utf8::is_char_boundary;
use crate::text::characters;
use crate::text::text_of;

verus! {

/// Whether a character has the Unicode property `White_Space`.
pub open spec fn is_white(character: char) -> bool {
    let code = character as u32;
    ||| 0x9 <= code <= 0xd
    ||| 0x2000 <= code <= 0x200a
    ||| code == 0x20 || code == 0x85 || code == 0xa0 || code == 0x1680
    ||| code == 0x2028 || code == 0x2029 || code == 0x202f || code == 0x205f || code == 0x3000
}

/// Calls `char::is_whitespace`. Claims what its documentation says: it finds the characters with
/// the property `White_Space` of the Unicode character database.
#[verifier::external_body]
fn white(character: char) -> (found: bool)
    ensures
        found == is_white(character),
{
    character.is_whitespace()
}

/// How many of the first characters pass.
pub open spec fn leading(text: Seq<char>, pass: spec_fn(char) -> bool) -> nat
    decreases text.len(),
{
    if text.len() > 0 && pass(text[0]) {
        1 + leading(text.drop_first(), pass)
    } else {
        0
    }
}

/// How many of the last characters pass.
pub open spec fn trailing(text: Seq<char>, pass: spec_fn(char) -> bool) -> nat
    decreases text.len(),
{
    if text.len() > 0 && pass(text.last()) {
        1 + trailing(text.drop_last(), pass)
    } else {
        0
    }
}

/// The count of passing characters is that of the first run.
pub(crate) proof fn lemma_leading(text: Seq<char>, pass: spec_fn(char) -> bool, count: int)
    requires
        0 <= count <= text.len(),
        forall|i: int| 0 <= i < count ==> pass(#[trigger] text[i]),
        count < text.len() ==> !pass(text[count]),
    ensures
        leading(text, pass) == count,
    decreases text.len(),
{
    if count > 0 {
        assert(pass(text[0]));
        let rest = text.drop_first();
        assert forall|i: int| 0 <= i < count - 1 implies pass(#[trigger] rest[i]) by {
            assert(rest[i] == text[i + 1]);
        }
        lemma_leading(rest, pass, count - 1);
    }
}

pub(crate) proof fn lemma_trailing(text: Seq<char>, pass: spec_fn(char) -> bool, count: int)
    requires
        0 <= count <= text.len(),
        forall|i: int| text.len() - count <= i < text.len() ==> pass(#[trigger] text[i]),
        count < text.len() ==> !pass(text[text.len() - count - 1]),
    ensures
        trailing(text, pass) == count,
    decreases text.len(),
{
    if count > 0 {
        assert(pass(text[text.len() - 1]));
        let rest = text.drop_last();
        assert forall|i: int| rest.len() - (count - 1) <= i < rest.len() implies pass(#[trigger] rest[i]) by {
            assert(rest[i] == text[i]);
        }
        lemma_trailing(rest, pass, count - 1);
    }
}

pub(crate) proof fn lemma_leading_bounded(text: Seq<char>, pass: spec_fn(char) -> bool)
    ensures
        leading(text, pass) <= text.len(),
    decreases text.len(),
{
    if text.len() > 0 && pass(text[0]) {
        lemma_leading_bounded(text.drop_first(), pass);
    }
}

pub(crate) proof fn lemma_trailing_bounded(text: Seq<char>, pass: spec_fn(char) -> bool)
    ensures
        trailing(text, pass) <= text.len(),
    decreases text.len(),
{
    if text.len() > 0 && pass(text.last()) {
        lemma_trailing_bounded(text.drop_last(), pass);
    }
}

/// A text without its last characters that pass.
pub open spec fn without_trailing(text: Seq<char>, pass: spec_fn(char) -> bool) -> Seq<char> {
    text.take(text.len() - trailing(text, pass))
}

/// A text without its first characters that pass.
pub open spec fn without_leading(text: Seq<char>, pass: spec_fn(char) -> bool) -> Seq<char> {
    text.skip(leading(text, pass) as int)
}

/// White space.
pub open spec fn white_space() -> spec_fn(char) -> bool {
    |character: char| is_white(character)
}

/// One character.
pub open spec fn just(wanted: char) -> spec_fn(char) -> bool {
    |character: char| character == wanted
}

/// A text without white space at its end.
pub open spec fn trimmed_end(text: Seq<char>) -> Seq<char> {
    without_trailing(text, white_space())
}

/// A text without white space at its ends.
pub open spec fn trimmed(text: Seq<char>) -> Seq<char> {
    without_leading(trimmed_end(text), white_space())
}

/// Removes white space at the end.
pub(crate) fn trim_end(text: &str) -> (rest: String)
    ensures
        rest@ == trimmed_end(text@),
{
    let list = characters(text);
    let mut end: usize = list.len();
    while end > 0 && white(list[end - 1])
        invariant
            end <= list@.len(),
            forall|i: int| end <= i < list@.len() ==> is_white(#[trigger] list@[i]),
        decreases end,
    {
        end = end - 1;
    }
    proof {
        lemma_trailing(list@, white_space(), list@.len() - end);
        assert(list@.subrange(0, end as int) =~= trimmed_end(text@));
    }
    text_of(&list, 0, end)
}

/// Removes white space at both ends.
pub(crate) fn trim(text: &str) -> (rest: String)
    ensures
        rest@ == trimmed(text@),
{
    let shorter = trim_end(text);
    let list = characters(shorter.as_str());
    let mut start: usize = 0;
    while start < list.len() && white(list[start])
        invariant
            start <= list@.len(),
            forall|i: int| 0 <= i < start ==> is_white(#[trigger] list@[i]),
        decreases list@.len() - start,
    {
        start = start + 1;
    }
    proof {
        lemma_leading(list@, white_space(), start as int);
        assert(list@.subrange(start as int, list@.len() as int) =~= trimmed(text@));
    }
    text_of(&list, start, list.len())
}

/// How many of the first characters, from a place on, are the wanted one.
pub(crate) fn count_leading(list: &Vec<char>, from: usize, wanted: char) -> (count: usize)
    requires
        from <= list@.len(),
    ensures
        count == leading(list@.skip(from as int), just(wanted)),
        from + count <= list@.len(),
        forall|i: int| from <= i < from + count ==> #[trigger] list@[i] == wanted,
        from + count < list@.len() ==> list@[from + count] != wanted,
{
    let mut end: usize = from;
    while end < list.len() && list[end] == wanted
        invariant
            from <= end <= list@.len(),
            forall|i: int| from <= i < end ==> #[trigger] list@[i] == wanted,
        decreases list@.len() - end,
    {
        end = end + 1;
    }
    proof {
        let rest = list@.skip(from as int);
        assert forall|i: int| 0 <= i < end - from implies just(wanted)(#[trigger] rest[i]) by {
            assert(rest[i] == list@[from + i]);
        }
        lemma_leading(rest, just(wanted), end - from);
    }
    end - from
}

/// A link text between angle brackets.
pub open spec fn unbracketed(text: Seq<char>) -> Seq<char> {
    without_trailing(without_leading(text, just('<')), just('>'))
}

/// Removes angle brackets around a text.
pub(crate) fn strip_brackets(text: &str) -> (rest: String)
    ensures
        rest@ == unbracketed(text@),
{
    let list = characters(text);
    let start: usize = count_leading(&list, 0, '<');
    assert(list@.skip(0) =~= list@);
    let mut end: usize = list.len();
    while end > start && list[end - 1] == '>'
        invariant
            start <= end <= list@.len(),
            forall|i: int| end <= i < list@.len() ==> #[trigger] list@[i] == '>',
        decreases end,
    {
        end = end - 1;
    }
    proof {
        let inner = without_leading(text@, just('<'));
        assert(inner =~= list@.skip(start as int));
        assert forall|i: int| inner.len() - (list@.len() - end) <= i < inner.len() implies just('>')(
            #[trigger] inner[i],
        ) by {
            assert(inner[i] == list@[start + i]);
        }
        lemma_trailing(inner, just('>'), list@.len() - end);
        assert(list@.subrange(start as int, end as int) =~= unbracketed(text@));
    }
    text_of(&list, start, end)
}

/// Whether byte offsets mark a piece of a text.
pub open spec fn is_slice(source: Seq<char>, start: int, end: int) -> bool {
    let bytes = encode_utf8(source);
    0 <= start <= end <= bytes.len() && is_char_boundary(bytes, start) && is_char_boundary(bytes, end)
}

/// The piece of a text between byte offsets.
pub open spec fn slice(source: Seq<char>, start: int, end: int) -> Seq<char> {
    decode_utf8(encode_utf8(source).subrange(start, end))
}

/// Whether byte offsets mark a piece of a text.
pub(crate) fn can_slice(source: &str, start: usize, end: usize) -> (found: bool)
    ensures
        found == is_slice(source@, start as int, end as int),
{
    start <= end && end <= source.as_bytes().len() && source.is_char_boundary(start)
        && source.is_char_boundary(end)
}

/// Cuts a piece out of a text.
pub(crate) fn cut<'a>(source: &'a str, start: usize, end: usize) -> (piece: &'a str)
    requires
        is_slice(source@, start as int, end as int),
    ensures
        piece@ == slice(source@, start as int, end as int),
        encode_utf8(piece@) == encode_utf8(source@).subrange(start as int, end as int),
{
    let ghost bytes = encode_utf8(source@);
    proof {
        vstd::utf8::encode_utf8_valid_utf8(source@);
        vstd::utf8::valid_utf8_split(bytes, start as int);
    }
    let (_, rest) = source.split_at(start);
    proof {
        let tail = bytes.subrange(start as int, bytes.len() as int);
        assert(rest.spec_bytes() == tail);
        vstd::utf8::encode_utf8_valid_utf8(rest@);
        if start < end && end < bytes.len() {
            vstd::utf8::is_char_boundary_iff_not_is_continuation_byte(bytes, end as int);
            vstd::utf8::is_char_boundary_iff_not_is_continuation_byte(tail, end - start);
            assert(tail[end - start] == bytes[end as int]);
        } else {
            vstd::utf8::is_char_boundary_start_end_of_seq(tail);
        }
    }
    let (piece, _) = rest.split_at(end - start);
    proof {
        assert(piece.spec_bytes() =~= bytes.subrange(start as int, end as int));
        vstd::utf8::encode_utf8_decode_utf8(piece@);
    }
    piece
}

/// A text has no more characters than bytes.
pub(crate) proof fn lemma_fewer_characters(text: Seq<char>)
    ensures
        text.len() <= encode_utf8(text).len(),
    decreases text.len(),
{
    if text.len() > 0 {
        lemma_fewer_characters(text.drop_first());
    }
}

} // verus!
