//! Text as sequences of characters: its order, and the small pieces of text that
//! messages, keys and links are assembled from.

use vstd::prelude::*;
use vstd::std_specs::iter::IteratorSpec;
use vstd::string::*;
use crate::ordered::texts;

verus! {

/// `left` comes before `right` in the order of Rust strings: the first differing
/// code point decides, and a proper prefix comes first.
pub open spec fn text_lt(left: Seq<char>, right: Seq<char>) -> bool
    decreases left.len(),
{
    if right.len() == 0 {
        false
    } else if left.len() == 0 {
        true
    } else if left[0] != right[0] {
        (left[0] as u32) < (right[0] as u32)
    } else {
        text_lt(left.drop_first(), right.drop_first())
    }
}

/// No text comes before itself.
pub proof fn lemma_text_lt_irreflexive(text: Seq<char>)
    ensures
        !text_lt(text, text),
    decreases text.len(),
{
    if text.len() > 0 {
        lemma_text_lt_irreflexive(text.drop_first());
    }
}

/// The order of texts is transitive.
pub proof fn lemma_text_lt_transitive(a: Seq<char>, b: Seq<char>, c: Seq<char>)
    requires
        text_lt(a, b),
        text_lt(b, c),
    ensures
        text_lt(a, c),
    decreases a.len(),
{
    if a.len() > 0 && a[0] == b[0] && b[0] == c[0] {
        lemma_text_lt_transitive(a.drop_first(), b.drop_first(), c.drop_first());
    }
}

/// Of two different texts one comes before the other.
pub proof fn lemma_text_lt_total(a: Seq<char>, b: Seq<char>)
    ensures
        text_lt(a, b) || text_lt(b, a) || a == b,
    decreases a.len(),
{
    if a.len() == 0 {
        if b.len() == 0 {
            assert(a =~= b);
        }
    } else if b.len() > 0 && a[0] != b[0] {
        vstd::utf8::char_u32_cast(a[0], a[0] as u32);
        vstd::utf8::char_u32_cast(b[0], b[0] as u32);
    } else if b.len() > 0 {
        lemma_text_lt_total(a.drop_first(), b.drop_first());
        if a.drop_first() == b.drop_first() {
            assert(a =~= seq![a[0]] + a.drop_first());
            assert(b =~= seq![b[0]] + b.drop_first());
        }
    }
}

/// Two texts do not each come before the other.
pub proof fn lemma_text_lt_asymmetric(a: Seq<char>, b: Seq<char>)
    requires
        text_lt(a, b),
    ensures
        !text_lt(b, a),
        a != b,
{
    if text_lt(b, a) {
        lemma_text_lt_transitive(a, b, a);
    }
    lemma_text_lt_irreflexive(a);
}

/// Calls `<` of `str`. Claims what its documentation says: strings are ordered
/// lexicographically by their byte values, which orders them by code points.
#[verifier::external_body]
pub(crate) fn text_less(left: &str, right: &str) -> (less: bool)
    ensures
        less == text_lt(left@, right@),
{
    left < right
}

/// Calls `==` of `str`. Claims that two strings are equal exactly when they hold the
/// same characters.
#[verifier::external_body]
pub(crate) fn text_equal(left: &str, right: &str) -> (equal: bool)
    ensures
        equal == (left@ == right@),
{
    left == right
}

/// `String::push` appends one character.
pub assume_specification[ String::push ](text: &mut String, character: char)
    ensures
        final(text)@ == old(text)@.push(character),
;

/// A text that may be missing, as characters.
pub open spec fn optional_text(value: Option<String>) -> Option<Seq<char>> {
    match value {
        Some(text) => Some(text@),
        None => None,
    }
}

/// Copies a list of strings.
pub(crate) fn copy_strings(list: &Vec<String>) -> (copy: Vec<String>)
    ensures
        texts(copy@) == texts(list@),
{
    let mut copy: Vec<String> = Vec::new();
    let mut i: usize = 0;
    while i < list.len()
        invariant
            0 <= i <= list.len(),
            copy.len() == i,
            forall|j: int| 0 <= j < i ==> (#[trigger] copy@[j])@ == list@[j]@,
        decreases list.len() - i,
    {
        copy.push(list[i].clone());
        i += 1;
    }
    assert(texts(copy@) =~= texts(list@));
    copy
}

/// The decimal digit for a value below ten.
pub open spec fn digit_char(value: nat) -> char {
    ((48 + value) as u8) as char
}

/// A number in decimal digits, without leading zeros.
pub open spec fn decimal_text(value: nat) -> Seq<char>
    decreases value,
{
    if value < 10 {
        seq![digit_char(value)]
    } else {
        decimal_text(value / 10).push(digit_char(value % 10))
    }
}

/// Writes a number in decimal.
pub fn decimal(value: u64) -> (text: String)
    ensures
        text@ == decimal_text(value as nat),
    decreases value,
{
    let digit: u8 = (48 + value % 10) as u8;
    if value < 10 {
        let mut text = String::new();
        text.push(digit as char);
        assert(text@ =~= decimal_text(value as nat));
        text
    } else {
        let mut text = decimal(value / 10);
        text.push(digit as char);
        text
    }
}

/// A number in decimal, with a minus sign where it is negative.
pub open spec fn signed_text(value: int) -> Seq<char> {
    if value < 0 {
        seq!['-'] + decimal_text((-value) as nat)
    } else {
        decimal_text(value as nat)
    }
}

/// Writes a signed number in decimal.
pub fn signed_decimal(value: i32) -> (text: String)
    ensures
        text@ == signed_text(value as int),
{
    if value < 0 {
        let mut text = String::new();
        text.push('-');
        let magnitude: u64 = (-(value as i64)) as u64;
        let digits = decimal(magnitude);
        let ghost before = text@;
        text.append(digits.as_str());
        assert(before =~= seq!['-']);
        text
    } else {
        decimal(value as u64)
    }
}

/// One part of a record: its length, a colon, and its text.
pub open spec fn record_part(part: Seq<char>) -> Seq<char> {
    decimal_text(part.len()) + seq![':'] + part
}

/// Several texts as one record that can be taken apart again.
pub open spec fn record_text(parts: Seq<Seq<char>>) -> Seq<char>
    decreases parts.len(),
{
    if parts.len() == 0 {
        Seq::empty()
    } else {
        record_part(parts[0]) + record_text(parts.drop_first())
    }
}

/// Adding a part at the end extends the record.
proof fn lemma_record_push(parts: Seq<Seq<char>>, part: Seq<char>)
    ensures
        record_text(parts.push(part)) == record_text(parts) + record_part(part),
    decreases parts.len(),
{
    if parts.len() == 0 {
        assert(parts.push(part).drop_first() =~= Seq::<Seq<char>>::empty());
        assert(record_text(parts.push(part).drop_first()) == Seq::<char>::empty());
        assert(parts.push(part)[0] == part);
        assert(record_text(parts.push(part)) =~= record_text(parts) + record_part(part));
    } else {
        assert(parts.push(part).drop_first() =~= parts.drop_first().push(part));
        lemma_record_push(parts.drop_first(), part);
        assert(record_text(parts.push(part)) =~= record_text(parts) + record_part(part));
    }
}

/// Appends one part to a record.
pub(crate) fn append_part(record: &mut String, part: &str, Ghost(parts): Ghost<Seq<Seq<char>>>)
    requires
        old(record)@ == record_text(parts),
    ensures
        final(record)@ == record_text(parts.push(part@)),
{
    let length: usize = part.unicode_len();
    record.append(decimal(length as u64).as_str());
    record.push(':');
    record.append(part);
    proof {
        lemma_record_push(parts, part@);
        assert(record@ =~= record_text(parts) + record_part(part@));
    }
}

/// Decimal texts hold digits only.
proof fn lemma_decimal_digits(value: nat, index: int)
    requires
        0 <= index < decimal_text(value).len(),
    ensures
        decimal_text(value)[index] != ':',
    decreases value,
{
    if value >= 10 {
        if index < decimal_text(value).len() - 1 {
            lemma_decimal_digits(value / 10, index);
        }
    }
}

/// A decimal text belongs to one number only.
pub proof fn lemma_decimal_injective(a: nat, b: nat)
    requires
        decimal_text(a) == decimal_text(b),
    ensures
        a == b,
    decreases a,
{
    let left = decimal_text(a);
    let right = decimal_text(b);
    assert(left.last() == digit_char(a % 10)) by {
        if a < 10 {
            assert(left[0] == digit_char(a));
        }
    }
    assert(right.last() == digit_char(b % 10)) by {
        if b < 10 {
            assert(right[0] == digit_char(b));
        }
    }
    lemma_digit_injective(a % 10, b % 10);
    lemma_decimal_nonempty(a);
    lemma_decimal_nonempty(b);
    lemma_decimal_nonempty(a / 10);
    lemma_decimal_nonempty(b / 10);
    if a >= 10 && b >= 10 {
        assert(decimal_text(a / 10) =~= left.drop_last());
        assert(decimal_text(b / 10) =~= right.drop_last());
        lemma_decimal_injective(a / 10, b / 10);
    }
}

proof fn lemma_digit_injective(a: nat, b: nat)
    requires
        a < 10,
        b < 10,
        digit_char(a) == digit_char(b),
    ensures
        a == b,
{
    let x = (48 + a) as u8;
    let y = (48 + b) as u8;
    assert(x as char as u32 == x as u32);
    assert(y as char as u32 == y as u32);
}

/// A decimal text does not start with a sign.
pub(crate) proof fn lemma_unsigned_start(value: int)
    ensures
        signed_text(value).len() > 0,
        signed_text(value)[0] == '-' <==> value < 0,
{
    if value >= 0 {
        lemma_decimal_start(value as nat);
    }
}

proof fn lemma_decimal_start(value: nat)
    ensures
        decimal_text(value).len() > 0,
        decimal_text(value)[0] != '-',
    decreases value,
{
    if value >= 10 {
        lemma_decimal_start(value / 10);
    }
}

proof fn lemma_decimal_nonempty(value: nat)
    ensures
        decimal_text(value).len() >= 1,
{
}

/// A record holds one list of parts only.
pub proof fn lemma_record_injective(a: Seq<Seq<char>>, b: Seq<Seq<char>>)
    requires
        record_text(a) == record_text(b),
    ensures
        a == b,
    decreases a.len(),
{
    let left = record_text(a);
    let right = record_text(b);
    if a.len() == 0 || b.len() == 0 {
        if a.len() > 0 {
            assert(left.len() >= record_part(a[0]).len());
            assert(record_part(a[0]).len() > 0);
        }
        if b.len() > 0 {
            assert(right.len() >= record_part(b[0]).len());
            assert(record_part(b[0]).len() > 0);
        }
        assert(a =~= b);
    } else {
        let m = decimal_text(a[0].len());
        let n = decimal_text(b[0].len());
        assert(left[m.len() as int] == ':');
        assert(right[n.len() as int] == ':');
        if m.len() < n.len() {
            assert(right[m.len() as int] == n[m.len() as int]);
            lemma_decimal_digits(b[0].len(), m.len() as int);
        }
        if n.len() < m.len() {
            assert(left[n.len() as int] == m[n.len() as int]);
            lemma_decimal_digits(a[0].len(), n.len() as int);
        }
        assert(m =~= n) by {
            assert forall|i: int| 0 <= i < m.len() implies m[i] == n[i] by {
                assert(left[i] == m[i]);
                assert(right[i] == n[i]);
            }
        }
        lemma_decimal_injective(a[0].len(), b[0].len());
        assert(a[0] =~= b[0]) by {
            assert forall|i: int| 0 <= i < a[0].len() implies a[0][i] == b[0][i] by {
                assert(left[m.len() + 1 + i] == a[0][i]);
                assert(right[n.len() + 1 + i] == b[0][i]);
            }
        }
        let x = record_text(a.drop_first());
        let y = record_text(b.drop_first());
        assert(x =~= left.skip(record_part(a[0]).len() as int));
        assert(y =~= right.skip(record_part(b[0]).len() as int));
        lemma_record_injective(a.drop_first(), b.drop_first());
        assert(a =~= seq![a[0]] + a.drop_first());
        assert(b =~= seq![b[0]] + b.drop_first());
    }
}

/// Writes a signed number of 64 bits in decimal.
pub fn signed_decimal_i64(value: i64) -> (text: String)
    ensures
        text@ == signed_text(value as int),
{
    if value < 0 {
        let mut text = String::new();
        text.push('-');
        let magnitude: u64 = (-(value as i128)) as u64;
        let digits = decimal(magnitude);
        let ghost before = text@;
        text.append(digits.as_str());
        assert(before =~= seq!['-']);
        text
    } else {
        decimal(value as u64)
    }
}

/// The characters of a text.
pub(crate) fn characters(text: &str) -> (list: Vec<char>)
    ensures
        list@ == text@,
{
    broadcast use vstd::string::group_string_axioms;

    let mut list: Vec<char> = Vec::new();
    let mut rest = text.chars();
    assert(list@ + rest.remaining() =~= text@);
    loop
        invariant
            list@ + rest.remaining() == text@,
            rest.decrease() is Some,
        ensures
            list@ == text@,
        decreases rest.decrease()->0,
    {
        broadcast use vstd::string::group_string_axioms;

        let ghost before = rest.remaining();
        let ghost done = list@;
        match rest.next() {
            None => {
                assert(list@ + rest.remaining() =~= list@);
                break ;
            },
            Some(character) => {
                list.push(character);
                assert(done + before =~= done.push(before[0]) + before.drop_first());
            },
        }
    }
    list
}

/// The characters of a list from one place up to another, as a text.
pub(crate) fn text_of(list: &Vec<char>, start: usize, end: usize) -> (text: String)
    requires
        start <= end <= list@.len(),
    ensures
        text@ == list@.subrange(start as int, end as int),
{
    let mut text = String::new();
    let mut i: usize = start;
    assert(text@ =~= list@.subrange(start as int, start as int));
    while i < end
        invariant
            start <= i <= end <= list@.len(),
            text@ == list@.subrange(start as int, i as int),
        decreases end - i,
    {
        text.push(list[i]);
        assert(text@ =~= list@.subrange(start as int, i + 1));
        i += 1;
    }
    text
}

/// Whether a text starts with another.
pub(crate) fn starts_with(text: &str, prefix: &str) -> (found: bool)
    ensures
        found == prefix@.is_prefix_of(text@),
{
    let list = characters(text);
    let count: usize = prefix.unicode_len();
    if count > list.len() {
        return false;
    }
    let first = text_of(&list, 0, count);
    assert(first@ =~= text@.take(count as int));
    let found = text_equal(first.as_str(), prefix);
    assert(found == prefix@.is_prefix_of(text@)) by {
        if prefix@.is_prefix_of(text@) {
            assert(first@ =~= prefix@);
        }
    }
    found
}

/// A text comes before another exactly where, behind a common start, it ends or has the lesser
/// character.
pub proof fn lemma_text_order(left: Seq<char>, right: Seq<char>, common: int)
    requires
        0 <= common <= left.len(),
        common <= right.len(),
        left.take(common) == right.take(common),
        common < left.len() && common < right.len() ==> left[common] != right[common],
    ensures
        text_lt(left, right) <==> common < right.len() && (common == left.len() || (left[common] as u32) < (
        right[common] as u32)),
    decreases common,
{
    if common > 0 {
        assert(left[0] == left.take(common)[0] && right[0] == right.take(common)[0]);
        let x = left.drop_first();
        let y = right.drop_first();
        assert(x.take(common - 1) =~= left.take(common).drop_first());
        assert(y.take(common - 1) =~= right.take(common).drop_first());
        lemma_text_order(x, y, common - 1);
    }
}

} // verus!
