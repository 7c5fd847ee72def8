//! The gender tag of a record and its decoding from the `DBC` element.

use crate::decimal::{read_unsigned, unsigned_value_up_to};
use crate::text::chars_of;
use vstd::prelude::*;

verus! {

/// The gender that a card states.
#[allow(non_camel_case_types)]
#[derive(Clone, Copy, Debug, PartialEq, Eq, Structural)]
pub enum Gender {
    MALE,
    FEMALE,
    UNSPECIFIED,
}

/// The gender that the element value `value` states: the value is read as an
/// unsigned numeral of a number up to 255, where 1 is male and 2 is female.
/// Any other number, and any value that is no such numeral, leaves the gender
/// unspecified.
pub open spec fn gender_of(value: Seq<char>) -> Gender {
    match unsigned_value_up_to(value, 255) {
        Some(n) => if n == 1 {
            Gender::MALE
        } else if n == 2 {
            Gender::FEMALE
        } else {
            Gender::UNSPECIFIED
        },
        None => Gender::UNSPECIFIED,
    }
}

impl Gender {
    /// The number that stands for this gender on a card: 1, 2 or 9.
    pub open spec fn spec_code(self) -> u8 {
        match self {
            Gender::MALE => 1,
            Gender::FEMALE => 2,
            Gender::UNSPECIFIED => 9,
        }
    }

    /// The number that stands for this gender on a card: 1, 2 or 9.
    #[verifier::when_used_as_spec(spec_code)]
    pub fn code(self) -> (c: u8)
        ensures
            c == self.spec_code(),
    {
        match self {
            Gender::MALE => 1,
            Gender::FEMALE => 2,
            Gender::UNSPECIFIED => 9,
        }
    }

    /// Decodes the value of a `DBC` element.
    pub fn decode(value: &str) -> (g: Gender)
        ensures
            g == gender_of(value@),
    {
        let v = chars_of(value);
        assert(v@.subrange(0, v@.len() as int) == v@);
        match read_unsigned(&v, 0, v.len(), 255) {
            Some(1) => Gender::MALE,
            Some(2) => Gender::FEMALE,
            _ => Gender::UNSPECIFIED,
        }
    }
}

} // verus!
