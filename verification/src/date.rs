//! Dates: from the eight characters of a card to a calendar date.

use crate::decimal::{
    all_digits, append_padded, lemma_all_digits_parts, lemma_digits_value_bound,
    lemma_padded_digits, lemma_padded_of_digits, lemma_padded_width, lemma_pow10_increases,
    numeral_digits, padded, pow10, read_unsigned, unsigned_value,
};
use crate::record::ParsedData;
use crate::text::chars_of;
use vstd::prelude::*;

verus! {

/// What stands in place of a date that cannot be read.
pub open spec fn invalid_date() -> Seq<char> {
    "Invalid Date"@
}

/// The date `year`-`month`-`day`, with four digits for the year and two each
/// for the month and the day.
pub open spec fn iso_date(year: nat, month: nat, day: nat) -> Seq<char> {
    padded(year, 4) + seq!['-'] + padded(month, 2) + seq!['-'] + padded(day, 2)
}

/// The calendar date that the element value `s` states. A value of eight
/// characters is read as month, day and year, of two, two and four
/// characters, each an unsigned numeral. What the numerals say is not held
/// against the calendar. Any other value is an invalid date.
pub open spec fn date_text(s: Seq<char>) -> Seq<char> {
    if s.len() == 8 {
        match (
            unsigned_value(s.subrange(0, 2)),
            unsigned_value(s.subrange(2, 4)),
            unsigned_value(s.subrange(4, 8)),
        ) {
            (Some(month), Some(day), Some(year)) => iso_date(year, month, day),
            _ => invalid_date(),
        }
    } else {
        invalid_date()
    }
}

/// Whether `s` has the form of a calendar date: four digits, a hyphen, two
/// digits, a hyphen, two digits.
pub open spec fn is_iso_date(s: Seq<char>) -> bool {
    &&& s.len() == 10
    &&& all_digits(s.subrange(0, 4))
    &&& s[4] == '-'
    &&& all_digits(s.subrange(5, 7))
    &&& s[7] == '-'
    &&& all_digits(s.subrange(8, 10))
}

/// An unsigned numeral of `s.len()` characters denotes a number below the
/// `s.len()`-th power of ten.
proof fn lemma_numeral_bound(s: Seq<char>)
    ensures
        unsigned_value(s) matches Some(n) ==> n < pow10(s.len()),
{
    if unsigned_value(s) is Some {
        let digits = numeral_digits(s);
        lemma_digits_value_bound(digits);
        lemma_pow10_increases(digits.len(), s.len());
    }
}

/// The date of a value is a calendar date in form, or the text that stands
/// for an invalid date.
pub proof fn lemma_date_form(s: Seq<char>)
    ensures
        date_text(s) == invalid_date() || is_iso_date(date_text(s)),
{
    if date_text(s) != invalid_date() {
        let month = unsigned_value(s.subrange(0, 2))->0;
        let day = unsigned_value(s.subrange(2, 4))->0;
        let year = unsigned_value(s.subrange(4, 8))->0;
        lemma_numeral_bound(s.subrange(0, 2));
        lemma_numeral_bound(s.subrange(2, 4));
        lemma_numeral_bound(s.subrange(4, 8));
        assert(pow10(2) == 100 && pow10(4) == 10000) by {
            reveal_with_fuel(pow10, 5);
        }
        lemma_padded_width(year, 4);
        lemma_padded_width(month, 2);
        lemma_padded_width(day, 2);
        lemma_padded_digits(year, 4);
        lemma_padded_digits(month, 2);
        lemma_padded_digits(day, 2);
        let date = iso_date(year, month, day);
        assert(date.subrange(0, 4) == padded(year, 4));
        assert(date.subrange(5, 7) == padded(month, 2));
        assert(date.subrange(8, 10) == padded(day, 2));
    }
}

/// Eight digits, read as month, day and year, come back as year, month and
/// day with hyphens between them.
pub proof fn lemma_date_of_digits(s: Seq<char>)
    requires
        s.len() == 8,
        all_digits(s),
    ensures
        date_text(s) == s.subrange(4, 8) + seq!['-'] + s.subrange(0, 2) + seq!['-'] + s.subrange(
            2,
            4,
        ),
{
    let month = s.subrange(0, 2);
    let day = s.subrange(2, 4);
    let year = s.subrange(4, 8);
    lemma_all_digits_parts(s, 0, 2);
    lemma_all_digits_parts(s, 2, 4);
    lemma_all_digits_parts(s, 4, 8);
    assert(month[0] == s[0] && day[0] == s[2] && year[0] == s[4]);
    assert(numeral_digits(month) == month);
    assert(numeral_digits(day) == day);
    assert(numeral_digits(year) == year);
    lemma_padded_of_digits(month);
    lemma_padded_of_digits(day);
    lemma_padded_of_digits(year);
}

impl ParsedData {
    /// Brings the date of a card, eight characters for month, day and year,
    /// into the form year-month-day. A value of another form gives
    /// `Invalid Date`.
    pub fn standardize_date(date_str: &str) -> (date: String)
        ensures
            date@ == date_text(date_str@),
    {
        let v = chars_of(date_str);
        if v.len() != 8 {
            return "Invalid Date".to_owned();
        }
        proof {
            assert(pow10(2) == 100 && pow10(4) == 10000) by {
                reveal_with_fuel(pow10, 5);
            }
            lemma_numeral_bound(v@.subrange(0, 2));
            lemma_numeral_bound(v@.subrange(2, 4));
            lemma_numeral_bound(v@.subrange(4, 8));
        }
        let month: u32 = match read_unsigned(&v, 0, 2, u32::MAX) {
            Some(n) => n,
            None => {
                return "Invalid Date".to_owned();
            },
        };
        let day: u32 = match read_unsigned(&v, 2, 4, u32::MAX) {
            Some(n) => n,
            None => {
                return "Invalid Date".to_owned();
            },
        };
        let year: u32 = match read_unsigned(&v, 4, 8, u32::MAX) {
            Some(n) => n,
            None => {
                return "Invalid Date".to_owned();
            },
        };
        let mut date = String::new();
        append_padded(&mut date, year, 4);
        date.push('-');
        append_padded(&mut date, month, 2);
        date.push('-');
        append_padded(&mut date, day, 2);
        date
    }
}

} // verus!
