//! Decimal numerals: a sign, digits around a point, and a power of ten.

use crate::decimal::{all_digits, digit_of, digits_value, is_digit, pow10};
use vstd::prelude::*;

verus! {

/// A decimal numeral taken apart: its sign, the digits in front of the
/// point, the digits behind it, and the power of ten that it is multiplied
/// by.
pub struct Numeral {
    pub negative: bool,
    pub whole: Seq<char>,
    pub fraction: Seq<char>,
    pub exponent: int,
}

impl Numeral {
    /// The number of places by which the exponent moves the point to the
    /// right.
    pub open spec fn places_up(self) -> nat {
        if self.exponent > 0 {
            self.exponent as nat
        } else {
            0
        }
    }

    /// The number of places by which the exponent moves the point to the
    /// left.
    pub open spec fn places_down(self) -> nat {
        if self.exponent < 0 {
            (-self.exponent) as nat
        } else {
            0
        }
    }

    /// The numeral denotes `numerator / denominator`, whatever its sign: this
    /// is the numerator.
    pub open spec fn numerator(self) -> nat {
        digits_value(self.whole + self.fraction) * pow10(self.places_up())
    }

    /// The numeral denotes `numerator / denominator`, whatever its sign: this
    /// is the denominator, a power of ten.
    pub open spec fn denominator(self) -> nat {
        pow10(self.fraction.len() + self.places_down())
    }
}

/// The number of digits that `s` begins with.
pub open spec fn leading_digits(s: Seq<char>) -> nat
    decreases s.len(),
{
    if s.len() > 0 && is_digit(s.first()) {
        1 + leading_digits(s.drop_first())
    } else {
        0
    }
}

/// Whether `s` begins with a plus or a minus sign.
pub open spec fn is_signed(s: Seq<char>) -> bool {
    s.len() > 0 && (s.first() == '+' || s.first() == '-')
}

/// Whether `s` begins with a minus sign.
pub open spec fn is_negative(s: Seq<char>) -> bool {
    s.len() > 0 && s.first() == '-'
}

/// `s` without the sign it begins with, if it has one.
pub open spec fn unsigned_part(s: Seq<char>) -> Seq<char> {
    if is_signed(s) {
        s.drop_first()
    } else {
        s
    }
}

/// The whole number that `s` denotes: an optional sign, then one digit or
/// more. `None` where `s` is not of that form.
pub open spec fn integer_of(s: Seq<char>) -> Option<int> {
    let digits = unsigned_part(s);
    if digits.len() > 0 && all_digits(digits) {
        Some(
            if is_negative(s) {
                -(digits_value(digits) as int)
            } else {
                digits_value(digits) as int
            },
        )
    } else {
        None
    }
}

/// The exponent that `s` states at the end of a numeral: none, which is
/// zero, or the letter `e` or `E` and a whole number. `None` where `s` is
/// neither.
pub open spec fn exponent_of(s: Seq<char>) -> Option<int> {
    if s.len() == 0 {
        Some(0)
    } else if s.first() == 'e' || s.first() == 'E' {
        integer_of(s.drop_first())
    } else {
        None
    }
}

/// Where the parts of a numeral stand in a sequence of characters: where
/// the digits start, behind the sign; where the digits of the whole end,
/// which is where a point would stand; where the digits behind the point
/// start and where they end.
pub struct Places {
    pub start: int,
    pub point: int,
    pub behind: int,
    pub end: int,
}

/// Where the parts of a numeral stand in `s`, as far as `s` is one.
pub open spec fn places_of(s: Seq<char>) -> Places {
    let start: int = if is_signed(s) {
        1
    } else {
        0
    };
    let point = start + leading_digits(s.skip(start));
    let pointed = point < s.len() && s[point] == '.';
    let behind = if pointed {
        point + 1
    } else {
        point
    };
    let end = if pointed {
        behind + leading_digits(s.skip(behind))
    } else {
        behind
    };
    Places { start, point, behind, end }
}

/// `s` as a decimal numeral: an optional sign; then digits with at most one
/// point among them, in front of them or behind them, and one digit at
/// least; then an optional exponent. `None` where `s` is no such numeral.
pub open spec fn numeral_of(s: Seq<char>) -> Option<Numeral> {
    let at = places_of(s);
    match exponent_of(s.skip(at.end)) {
        Some(exponent) => if (at.point - at.start) + (at.end - at.behind) > 0 {
            Some(
                Numeral {
                    negative: is_negative(s),
                    whole: s.subrange(at.start, at.point),
                    fraction: s.subrange(at.behind, at.end),
                    exponent,
                },
            )
        } else {
            None
        },
        None => None,
    }
}

/// Where in a vector of characters the parts of a numeral stand. A numeral
/// without an exponent has no exponent digits.
pub struct NumeralBounds {
    pub negative: bool,
    pub whole_from: usize,
    pub whole_to: usize,
    pub fraction_from: usize,
    pub fraction_to: usize,
    pub exponent_negative: bool,
    pub exponent_from: usize,
    pub exponent_to: usize,
}

impl NumeralBounds {
    /// Whether these bounds lie in order within a vector of `len` characters.
    pub open spec fn within(self, len: nat) -> bool {
        &&& self.whole_from <= self.whole_to <= self.fraction_from <= self.fraction_to
        &&& self.fraction_to <= self.exponent_from <= self.exponent_to <= len
    }

    /// The digits in front of the point.
    pub open spec fn whole(self, v: Seq<char>) -> Seq<char> {
        v.subrange(self.whole_from as int, self.whole_to as int)
    }

    /// The digits behind the point.
    pub open spec fn fraction(self, v: Seq<char>) -> Seq<char> {
        v.subrange(self.fraction_from as int, self.fraction_to as int)
    }

    /// The digits of the exponent.
    pub open spec fn exponent_digits(self, v: Seq<char>) -> Seq<char> {
        v.subrange(self.exponent_from as int, self.exponent_to as int)
    }

    /// The numeral that these bounds mark in `v`.
    pub open spec fn numeral(self, v: Seq<char>) -> Numeral {
        Numeral {
            negative: self.negative,
            whole: self.whole(v),
            fraction: self.fraction(v),
            exponent: if self.exponent_negative {
                -(digits_value(self.exponent_digits(v)) as int)
            } else {
                digits_value(self.exponent_digits(v)) as int
            },
        }
    }

    /// Whether the parts that these bounds mark in `v` are digits.
    pub open spec fn marks_digits(self, v: Seq<char>) -> bool {
        &&& self.within(v.len())
        &&& all_digits(self.whole(v))
        &&& all_digits(self.fraction(v))
        &&& all_digits(self.exponent_digits(v))
    }
}

/// The end of the digits that `v[from..to]` begins with.
pub fn digits_end(v: &Vec<char>, from: usize, to: usize) -> (end: usize)
    requires
        from <= to <= v.len(),
    ensures
        from <= end <= to,
        end - from == leading_digits(v@.subrange(from as int, to as int)),
        all_digits(v@.subrange(from as int, end as int)),
        end < to ==> !is_digit(v@[end as int]),
{
    let mut end: usize = from;
    while end < to && digit_of(v[end]).is_some()
        invariant
            from <= end <= to <= v.len(),
            leading_digits(v@.subrange(from as int, to as int)) == end - from + leading_digits(
                v@.subrange(end as int, to as int),
            ),
            all_digits(v@.subrange(from as int, end as int)),
        decreases to - end,
    {
        assert(v@.subrange(end as int, to as int).drop_first() == v@.subrange(end + 1, to as int));
        assert forall|i: int| 0 <= i < end + 1 - from implies is_digit(
            #[trigger] v@.subrange(from as int, end + 1)[i],
        ) by {
            if i < end - from {
                assert(v@.subrange(from as int, end + 1)[i] == v@.subrange(
                    from as int,
                    end as int,
                )[i]);
            }
        }
        end += 1;
    }
    end
}

/// Reads `v[from..to]` as the exponent at the end of a numeral: whether it
/// is negative, and where its digits begin. They end at `to`.
pub fn read_exponent(v: &Vec<char>, from: usize, to: usize) -> (r: Option<(bool, usize)>)
    requires
        from <= to <= v.len(),
    ensures
        match r {
            Some((negative, digits_from)) => {
                &&& from <= digits_from <= to
                &&& all_digits(v@.subrange(digits_from as int, to as int))
                &&& exponent_of(v@.subrange(from as int, to as int)) == Some(
                    if negative {
                        -(digits_value(v@.subrange(digits_from as int, to as int)) as int)
                    } else {
                        digits_value(v@.subrange(digits_from as int, to as int)) as int
                    },
                )
            },
            None => exponent_of(v@.subrange(from as int, to as int)) is None,
        },
{
    let ghost s = v@.subrange(from as int, to as int);
    if from == to {
        assert(s.len() == 0);
        assert(digits_value(v@.subrange(to as int, to as int)) == 0);
        return Some((false, to));
    }
    assert(s.first() == v@[from as int]);
    if v[from] != 'e' && v[from] != 'E' {
        return None;
    }
    let ghost power = v@.subrange(from + 1, to as int);
    assert(power == s.drop_first());
    let signed: bool = from + 1 < to && (v[from + 1] == '+' || v[from + 1] == '-');
    let negative: bool = signed && v[from + 1] == '-';
    let digits_from: usize = if signed {
        from + 2
    } else {
        from + 1
    };
    assert(signed == is_signed(power));
    assert(negative == is_negative(power));
    assert(v@.subrange(digits_from as int, to as int) == unsigned_part(power));
    let digits_to: usize = digits_end(v, digits_from, to);
    if digits_to == to && digits_from < to {
        Some((negative, digits_from))
    } else {
        proof {
            if digits_to < to {
                assert(unsigned_part(power)[digits_to - digits_from] == v@[digits_to as int]);
            }
        }
        None
    }
}

/// Finds where the parts of a numeral stand in `v[from..to]`: the start of
/// the digits, the end of the whole, the start and the end of the fraction.
fn find_places(v: &Vec<char>, from: usize, to: usize) -> (r: (usize, usize, usize, usize))
    requires
        from <= to <= v.len(),
    ensures
        from <= r.0 <= r.1 <= r.2 <= r.3 <= to,
        places_of(v@.subrange(from as int, to as int)) == (Places {
            start: r.0 - from,
            point: r.1 - from,
            behind: r.2 - from,
            end: r.3 - from,
        }),
        all_digits(v@.subrange(r.0 as int, r.1 as int)),
        all_digits(v@.subrange(r.2 as int, r.3 as int)),
{
    let ghost s = v@.subrange(from as int, to as int);
    let signed: bool = from < to && (v[from] == '+' || v[from] == '-');
    let start: usize = if signed {
        from + 1
    } else {
        from
    };
    assert(s.skip(start - from) == v@.subrange(start as int, to as int));
    let point: usize = digits_end(v, start, to);
    if point < to && v[point] == '.' {
        assert(s.skip(point + 1 - from) == v@.subrange(point + 1, to as int));
        let end: usize = digits_end(v, point + 1, to);
        (start, point, point + 1, end)
    } else {
        assert(v@.subrange(point as int, point as int).len() == 0);
        (start, point, point, point)
    }
}

/// Reads `v[from..to]` as a decimal numeral.
pub fn read_numeral(v: &Vec<char>, from: usize, to: usize) -> (r: Option<NumeralBounds>)
    requires
        from <= to <= v.len(),
    ensures
        match r {
            Some(bounds) => {
                &&& bounds.marks_digits(v@)
                &&& numeral_of(v@.subrange(from as int, to as int)) == Some(bounds.numeral(v@))
            },
            None => numeral_of(v@.subrange(from as int, to as int)) is None,
        },
{
    let ghost s = v@.subrange(from as int, to as int);
    let negative: bool = from < to && v[from] == '-';
    let (start, point, behind, end) = find_places(v, from, to);
    proof {
        assert(s.skip(end - from) == v@.subrange(end as int, to as int));
        assert(s.subrange(start - from, point - from) == v@.subrange(start as int, point as int));
        assert(s.subrange(behind - from, end - from) == v@.subrange(behind as int, end as int));
    }
    match read_exponent(v, end, to) {
        Some((exponent_negative, exponent_from)) => {
            if (point - start) + (end - behind) > 0 {
                Some(
                    NumeralBounds {
                        negative,
                        whole_from: start,
                        whole_to: point,
                        fraction_from: behind,
                        fraction_to: end,
                        exponent_negative,
                        exponent_from,
                        exponent_to: to,
                    },
                )
            } else {
                None
            }
        },
        None => None,
    }
}

} // verus!
