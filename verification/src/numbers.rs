//! Reading numbers from their decimal digits.

use vstd::prelude::*;
use crate::text::characters;
use crate::text::decimal_text;
use crate::text::digit_char;
use crate::text::signed_text;
use crate::text::text_of;

verus! {

/// The value of a digit.
pub open spec fn digit_value(character: char) -> int {
    character as int - '0' as int
}

/// Whether a character is a decimal digit.
pub open spec fn is_digit(character: char) -> bool {
    '0' as int <= character as int <= '9' as int
}

/// The number that decimal digits write.
pub open spec fn digits_value(digits: Seq<char>) -> nat
    decreases digits.len(),
{
    if digits.len() == 0 {
        0
    } else {
        (digits_value(digits.drop_last()) * 10 + digit_value(digits.last())) as nat
    }
}

/// A text without a plus sign at its start.
pub open spec fn unsigned_part(text: Seq<char>) -> Seq<char> {
    if text.len() > 0 && text[0] == '+' {
        text.drop_first()
    } else {
        text
    }
}

/// Whether a text holds digits only.
pub open spec fn all_digits(digits: Seq<char>) -> bool {
    forall|i: int| 0 <= i < digits.len() ==> is_digit(#[trigger] digits[i])
}

/// The number that a text writes: digits, behind an optional plus sign, up to a limit.
pub open spec fn parsed_number(text: Seq<char>, limit: nat) -> Option<nat> {
    let digits = unsigned_part(text);
    if digits.len() > 0 && all_digits(digits) && digits_value(digits) <= limit {
        Some(digits_value(digits))
    } else {
        None
    }
}

/// More digits write a larger number.
proof fn lemma_digits_grow(digits: Seq<char>, count: int)
    requires
        0 <= count <= digits.len(),
        forall|i: int| 0 <= i < digits.len() ==> is_digit(#[trigger] digits[i]),
    ensures
        digits_value(digits.take(count)) <= digits_value(digits),
    decreases digits.len() - count,
{
    if count < digits.len() {
        lemma_digits_grow(digits, count + 1);
        assert(digits.take(count + 1).drop_last() =~= digits.take(count));
        assert(is_digit(digits[count]));
    } else {
        assert(digits.take(count) =~= digits);
    }
}

/// Reads a number.
pub(crate) fn parse_number(text: &str, limit: u64) -> (number: Option<u64>)
    ensures
        match number {
            Some(value) => parsed_number(text@, limit as nat) == Some(value as nat),
            None => parsed_number(text@, limit as nat) is None,
        },
{
    let list = characters(text);
    let start: usize = if list.len() > 0 && list[0] == '+' {
        1
    } else {
        0
    };
    let ghost digits = unsigned_part(text@);
    assert(digits =~= list@.skip(start as int));
    if start == list.len() {
        return None;
    }
    let mut value: u64 = 0;
    let mut i: usize = start;
    assert(digits.take(0) =~= Seq::<char>::empty());
    while i < list.len()
        invariant
            start <= i <= list@.len(),
            list@ == text@,
            digits == list@.skip(start as int),
            start < list@.len(),
            digits == unsigned_part(text@),
            forall|k: int| 0 <= k < i - start ==> is_digit(#[trigger] digits[k]),
            value == digits_value(digits.take(i - start)),
            value <= limit,
        decreases list@.len() - i,
    {
        let character = list[i];
        assert(digits[i - start] == character);
        if character < '0' || character > '9' {
            proof {
                let place = i - start;
                assert(0 <= place < digits.len() && !is_digit(digits[place]));
                assert(!all_digits(digits));
            }
            return None;
        }
        let digit: u64 = (character as u32 - '0' as u32) as u64;
        proof {
            assert(digits.take(i - start + 1).drop_last() =~= digits.take(i - start));
            assert(digits.take(i - start + 1).last() == character);
        }
        if digit > limit || value > (limit - digit) / 10 {
            proof {
                if all_digits(digits) {
                    lemma_digits_grow(digits, i - start + 1);
                    assert(digits_value(digits.take(i - start + 1)) == value * 10 + digit);
                }
            }
            return None;
        }
        value = value * 10 + digit;
        i += 1;
    }
    proof {
        assert(digits.take(i - start) =~= digits);
        assert forall|k: int| 0 <= k < digits.len() implies is_digit(#[trigger] digits[k]) by {}
    }
    Some(value)
}

/// The signed number that a text writes, within the bounds of an `i64`.
pub open spec fn parsed_signed(text: Seq<char>) -> Option<int> {
    if text.len() > 0 && text[0] == '-' {
        let digits = text.drop_first();
        if digits.len() > 0 && all_digits(digits) && digits_value(digits) <= 0x8000_0000_0000_0000 {
            Some(-(digits_value(digits) as int))
        } else {
            None
        }
    } else {
        match parsed_number(text, i64::MAX as nat) {
            Some(value) => Some(value as int),
            None => None,
        }
    }
}

/// Reads a signed number.
pub(crate) fn parse_signed(text: &str) -> (number: Option<i64>)
    ensures
        match number {
            Some(value) => parsed_signed(text@) == Some(value as int),
            None => parsed_signed(text@) is None,
        },
{
    let list = characters(text);
    if list.len() > 0 && list[0] == '-' {
        let digits = text_of(&list, 1, list.len());
        assert(digits@ =~= text@.drop_first());
        if list.len() > 1 && list[1] == '+' {
            proof {
                assert(digits@[0] == '+');
                assert(!is_digit(digits@[0]));
                assert(!all_digits(digits@));
            }
            return None;
        }
        assert(list@.len() > 1 ==> digits@[0] == list@[1]);
        assert(unsigned_part(digits@) == digits@);
        match parse_number(digits.as_str(), 0x8000_0000_0000_0000) {
            None => None,
            Some(value) => Some((-(value as i128)) as i64),
        }
    } else {
        match parse_number(text, i64::MAX as u64) {
            None => None,
            Some(value) => Some(value as i64),
        }
    }
}

/// Decimal digits write the number that they are read as.
pub(crate) proof fn lemma_digits_round_trip(value: nat)
    ensures
        all_digits(decimal_text(value)),
        digits_value(decimal_text(value)) == value,
        decimal_text(value).len() > 0,
    decreases value,
{
    let text = decimal_text(value);
    assert(digit_value(digit_char(value % 10)) == value % 10 && is_digit(digit_char(value % 10))) by {
        let digit = value % 10;
        let byte = (48 + digit) as u8;
        assert(byte as char as int == byte as int);
    }
    if value < 10 {
        assert(text.drop_last() =~= Seq::<char>::empty());
        assert(text.last() == digit_char(value));
        assert(digits_value(text.drop_last()) == 0);
    } else {
        lemma_digits_round_trip(value / 10);
        let rest = decimal_text(value / 10);
        assert(text.drop_last() =~= rest);
        assert forall|i: int| 0 <= i < text.len() implies is_digit(#[trigger] text[i]) by {
            if i < rest.len() {
                assert(text[i] == rest[i]);
            }
        }
    }
}

/// A signed number is read back as it was written.
pub proof fn lemma_signed_round_trip(value: int)
    requires
        i64::MIN <= value <= i64::MAX,
    ensures
        parsed_signed(signed_text(value)) == Some(value),
{
    let text = signed_text(value);
    if value < 0 {
        let digits = decimal_text((-value) as nat);
        lemma_digits_round_trip((-value) as nat);
        assert(text.drop_first() =~= digits);
        assert(text[0] == '-');
    } else {
        lemma_digits_round_trip(value as nat);
        assert(is_digit(text[0]));
        assert(text[0] != '-' && text[0] != '+');
        assert(unsigned_part(text) == text);
    }
}

/// A number within the limit is read back from its digits, with or without a plus sign; one beyond
/// the limit is not.
pub proof fn lemma_number_round_trip(value: nat, limit: nat)
    ensures
        value <= limit ==> parsed_number(decimal_text(value), limit) == Some(value),
        value <= limit ==> parsed_number(seq!['+'] + decimal_text(value), limit) == Some(value),
        value > limit ==> parsed_number(decimal_text(value), limit) is None,
{
    let digits = decimal_text(value);
    lemma_digits_round_trip(value);
    assert(is_digit(digits[0]));
    assert((seq!['+'] + digits).drop_first() =~= digits);
}

/// A text with anything but digits behind its sign is no number, and neither is one without digits.
pub proof fn lemma_no_number(text: Seq<char>, limit: nat, place: int)
    requires
        text.len() == 0 || (0 <= place < text.len() && !is_digit(text[place]) && (place > 0 || (text[0] != '+'
            && text[0] != '-'))),
    ensures
        parsed_number(text, limit) is None,
        parsed_signed(text) is None,
{
    if text.len() > 0 {
        let rest = text.drop_first();
        if place > 0 {
            assert(rest[place - 1] == text[place]);
        }
    }
}

} // verus!
