//! Heights: from centimetres or inches, as a card writes them, to inches
//! with two decimal places. Lengths are worked out on their decimal digits,
//! however many there are, so that nothing is lost to rounding but the last
//! step to hundredths of an inch.

use crate::decimal::{
    all_are, all_digits, decimal, digits_value, is_digit, lemma_all_digits_parts,
    lemma_decimal_of_digits, lemma_digits_value_bound, lemma_digits_value_concat,
    lemma_digits_value_floor, lemma_leading_zeros, lemma_padded_digits, lemma_padded_of_digits,
    lemma_padded_width, lemma_pow10_adds, lemma_pow10_increases, lemma_pow10_positive,
    lemma_trailing_zeros, lemma_zeros_value, padded, pow10, zeros,
};
use crate::digits::{
    count_zeros, divide_digits, ends_odd, holds_nonzero, increment_digits, read_capped,
};
use crate::numeral::{numeral_of, read_numeral, Numeral, NumeralBounds};
use crate::record::ParsedData;
use crate::rounding::{
    lemma_round_by_parts, lemma_round_scaled, lemma_round_small, round_half_even, rounds_up,
};
use crate::text::{chars_of, trim, trim_bounds};
use vstd::prelude::*;

verus! {

/// The most digits that the whole part of a length can take: as many as
/// that of the largest double-precision number.
pub const MOST_WHOLE_DIGITS: usize = 309;

/// What stands in place of a height that cannot be read.
pub open spec fn invalid_height() -> Seq<char> {
    "Invalid Height"@
}

/// Whether `s` ends in the characters `a` and `b`.
pub open spec fn ends_in(s: Seq<char>, a: char, b: char) -> bool {
    s.len() >= 2 && s[s.len() - 2] == a && s[s.len() - 1] == b
}

/// Whether the numeral `n` can state a length: what it denotes is below
/// ten to the power of `MOST_WHOLE_DIGITS`.
pub open spec fn in_range(n: Numeral) -> bool {
    n.numerator() < pow10(MOST_WHOLE_DIGITS as nat) * n.denominator()
}

/// The hundredths of an inch nearest to the length that the numeral `n`
/// states in a unit of which `per_inch` hundredths make an inch; of two that
/// are equally near, the even one.
pub open spec fn inches_hundredths(n: Numeral, per_inch: nat) -> nat {
    round_half_even(n.numerator() * 10000, per_inch * n.denominator())
}

/// A length of `hundredths` hundredths of an inch written in inches, with
/// two decimal places, behind a minus sign where `negative` holds.
pub open spec fn inches_text(negative: bool, hundredths: nat) -> Seq<char> {
    (if negative {
        seq!['-']
    } else {
        Seq::empty()
    }) + decimal(hundredths / 100) + seq!['.'] + padded(hundredths % 100, 2)
}

/// The length in inches that `number` states in a unit of which `per_inch`
/// hundredths make an inch; an invalid height where `number` is no numeral
/// or out of range. The sign of the numeral is kept.
pub open spec fn length_text(number: Option<Numeral>, per_inch: nat) -> Seq<char> {
    match number {
        Some(n) => if in_range(n) {
            inches_text(n.negative, inches_hundredths(n, per_inch))
        } else {
            invalid_height()
        },
        None => invalid_height(),
    }
}

/// The height in inches that the element value `s` states. Within the
/// whitespace around it the value ends in `CM` or in `IN`; in front of that,
/// and of any whitespace between, stands a decimal numeral of centimetres or
/// of inches. 254 hundredths of a centimetre make an inch. Any other value
/// is an invalid height.
pub open spec fn height_text(s: Seq<char>) -> Seq<char> {
    let t = trim(s);
    let number = numeral_of(trim(t.take(t.len() - 2)));
    if ends_in(t, 'C', 'M') {
        length_text(number, 254)
    } else if ends_in(t, 'I', 'N') {
        length_text(number, 100)
    } else {
        invalid_height()
    }
}

/// Whether `s` has the form of a length in inches: digits, a point and two
/// digits, with or without a minus sign in front.
pub open spec fn is_inches(s: Seq<char>) -> bool {
    let body = if s.len() > 0 && s.first() == '-' {
        s.drop_first()
    } else {
        s
    };
    &&& body.len() >= 4
    &&& all_digits(body.take(body.len() - 3))
    &&& body[body.len() - 3] == '.'
    &&& all_digits(body.skip(body.len() - 2))
}

/// A length written in inches has the form of one.
pub proof fn lemma_inches_form(negative: bool, hundredths: nat)
    ensures
        is_inches(inches_text(negative, hundredths)),
{
    let whole = decimal(hundredths / 100);
    let cents = padded(hundredths % 100, 2);
    let body = whole + seq!['.'] + cents;
    lemma_padded_digits(hundredths / 100, 1);
    lemma_padded_digits(hundredths % 100, 2);
    assert(pow10(2) == 100) by {
        reveal_with_fuel(pow10, 3);
    }
    lemma_padded_width(hundredths % 100, 2);
    assert(is_digit(whole[0]));
    let text = inches_text(negative, hundredths);
    if negative {
        assert(text == seq!['-'] + body);
        assert(text.drop_first() == body);
    } else {
        assert(text == body);
        assert(text[0] == whole[0]);
    }
    assert(body.take(body.len() - 3) == whole);
    assert(body.skip(body.len() - 2) == cents);
}

/// The height of a value is a length in inches in form, or the text that
/// stands for an invalid height.
pub proof fn lemma_height_form(s: Seq<char>)
    ensures
        height_text(s) == invalid_height() || is_inches(height_text(s)),
{
    let t = trim(s);
    match numeral_of(trim(t.take(t.len() - 2))) {
        Some(n) => {
            lemma_inches_form(n.negative, inches_hundredths(n, 254));
            lemma_inches_form(n.negative, inches_hundredths(n, 100));
        },
        None => {},
    }
}

/// A whole number of inches comes back as it is, without zeros in front,
/// and with two zeros behind the point.
pub proof fn lemma_whole_inches(n: Numeral)
    requires
        all_digits(n.whole),
        n.fraction.len() == 0,
        n.exponent == 0,
    ensures
        inches_hundredths(n, 100) == 100 * digits_value(n.whole),
        inches_text(n.negative, inches_hundredths(n, 100)) == (if n.negative {
            seq!['-']
        } else {
            Seq::empty()
        }) + decimal(digits_value(n.whole)) + seq!['.', '0', '0'],
{
    let value = digits_value(n.whole);
    assert(n.whole + n.fraction == n.whole);
    assert(pow10(0) == 1);
    assert(n.numerator() == value) by (nonlinear_arith)
        requires
            n.numerator() == value * pow10(0),
            pow10(0) == 1,
    ;
    assert(n.denominator() == 1);
    lemma_round_scaled(value * 100, 1, 100);
    assert(round_half_even(value * 100, 1) == value * 100);
    assert(padded(0, 2) == seq!['0', '0']) by {
        reveal_with_fuel(padded, 3);
        assert(seq!['0'].push('0') == seq!['0', '0']);
    }
    assert(seq!['.'] + seq!['0', '0'] == seq!['.', '0', '0']);
}

/// What the digits `digits`, with `point` of them in front of the point,
/// come to in hundredths of an inch.
spec fn digits_hundredths(digits: Seq<char>, point: int, per_inch: nat) -> nat {
    round_half_even(digits_value(digits) * 10000, per_inch * pow10((digits.len() - point) as nat))
}

/// The digits down to the fourth behind the point, with zeros where there
/// are fewer.
spec fn leading_part(digits: Seq<char>, point: int) -> Seq<char> {
    (digits + seq!['0', '0', '0', '0']).take(point + 4)
}

/// The digits from the fifth behind the point on.
spec fn trailing_part(digits: Seq<char>, point: int) -> Seq<char> {
    if digits.len() > point + 4 {
        digits.skip(point + 4)
    } else {
        Seq::empty()
    }
}

/// Both parts of a digit string are digit strings.
proof fn lemma_parts_are_digits(digits: Seq<char>, point: int)
    requires
        all_digits(digits),
        0 <= point <= digits.len(),
    ensures
        all_digits(leading_part(digits, point)),
        all_digits(trailing_part(digits, point)),
{
    let head = leading_part(digits, point);
    let tail = trailing_part(digits, point);
    let fill = seq!['0', '0', '0', '0'];
    assert forall|i: int| 0 <= i < head.len() implies is_digit(#[trigger] head[i]) by {
        if i < digits.len() {
            assert(head[i] == digits[i]);
        } else {
            assert(head[i] == fill[i - digits.len()]);
        }
    }
    assert forall|i: int| 0 <= i < tail.len() implies is_digit(#[trigger] tail[i]) by {
        assert(tail[i] == digits[i + point + 4]);
    }
}

/// `digits_hundredths` where four digits or more stand behind the point.
proof fn lemma_hundredths_long(high: nat, unit: nat, low: nat, per_inch: nat, scale: nat)
    requires
        per_inch > 0,
        unit > 0,
        scale == 10000 * unit,
    ensures
        round_half_even((high * unit + low) * 10000, per_inch * scale) == round_half_even(
            high * unit + low,
            per_inch * unit,
        ),
{
    let value = high * unit + low;
    assert(per_inch * unit > 0) by (nonlinear_arith)
        requires
            per_inch > 0,
            unit > 0,
    ;
    lemma_round_scaled(value, per_inch * unit, 10000);
    assert(10000 * (per_inch * unit) == per_inch * scale) by (nonlinear_arith)
        requires
            scale == 10000 * unit,
    ;
}

/// `digits_hundredths` where fewer than four digits stand behind the point.
proof fn lemma_hundredths_short(value: nat, shift: nat, scale: nat, per_inch: nat, high: nat)
    requires
        per_inch > 0,
        scale > 0,
        shift * scale == 10000,
        high == value * shift,
    ensures
        round_half_even(value * 10000, per_inch * scale) == round_half_even(
            high * 1 + 0,
            per_inch * 1,
        ),
{
    lemma_round_scaled(high, per_inch, scale);
    assert(scale * high == value * 10000) by (nonlinear_arith)
        requires
            shift * scale == 10000,
            high == value * shift,
    ;
    assert(scale * per_inch == per_inch * scale) by (nonlinear_arith);
}

/// `digits_hundredths` from the two parts of the digits.
proof fn lemma_hundredths_by_parts(digits: Seq<char>, point: int, per_inch: nat)
    requires
        all_digits(digits),
        0 <= point <= digits.len(),
        per_inch > 0,
    ensures
        pow10(trailing_part(digits, point).len()) > 0,
        digits_value(trailing_part(digits, point)) < pow10(trailing_part(digits, point).len()),
        digits_hundredths(digits, point, per_inch) == round_half_even(
            digits_value(leading_part(digits, point)) * pow10(trailing_part(digits, point).len())
                + digits_value(trailing_part(digits, point)),
            per_inch * pow10(trailing_part(digits, point).len()),
        ),
{
    let head = leading_part(digits, point);
    let tail = trailing_part(digits, point);
    let k = (digits.len() - point) as nat;
    let unit = pow10(tail.len());
    lemma_parts_are_digits(digits, point);
    lemma_pow10_positive(tail.len());
    lemma_pow10_positive(k);
    lemma_digits_value_bound(tail);
    assert(pow10(4) == 10000) by {
        reveal_with_fuel(pow10, 5);
    }
    if k >= 4 {
        assert(digits == head + tail);
        lemma_digits_value_concat(head, tail);
        lemma_pow10_adds(4, tail.len());
        lemma_hundredths_long(digits_value(head), unit, digits_value(tail), per_inch, pow10(k));
    } else {
        let fill = seq!['0', '0', '0', '0'].take(4 - k);
        assert(head == digits + fill);
        lemma_trailing_zeros(digits, fill);
        lemma_pow10_adds((4 - k) as nat, k);
        assert(unit == 1);
        assert(digits_value(tail) == 0);
        lemma_hundredths_short(
            digits_value(digits),
            pow10((4 - k) as nat),
            pow10(k),
            per_inch,
            digits_value(head),
        );
    }
}

/// `digits_hundredths` from the quotient and the remainder of the leading
/// part by an even divisor, and from whether the trailing part holds more
/// than zeros.
proof fn lemma_hundredths_from_division(digits: Seq<char>, point: int, half: nat, more: bool)
    requires
        all_digits(digits),
        0 <= point <= digits.len(),
        half > 0,
        more == !all_are(trailing_part(digits, point), '0'),
    ensures
        digits_hundredths(digits, point, 2 * half) == digits_value(leading_part(digits, point)) / (2
            * half) + if rounds_up(
            digits_value(leading_part(digits, point)) % (2 * half),
            half,
            more,
            (digits_value(leading_part(digits, point)) / (2 * half)) % 2 == 1,
        ) {
            1nat
        } else {
            0nat
        },
{
    lemma_parts_are_digits(digits, point);
    lemma_hundredths_by_parts(digits, point, 2 * half);
    lemma_zeros_value(trailing_part(digits, point));
    lemma_round_by_parts(
        digits_value(leading_part(digits, point)),
        pow10(trailing_part(digits, point).len()),
        digits_value(trailing_part(digits, point)),
        half,
    );
}

/// The leading part of `digits`.
fn leading_digits_of(digits: &Vec<char>, point: usize) -> (head: Vec<char>)
    requires
        point <= digits.len(),
    ensures
        head@ == leading_part(digits@, point as int),
{
    let ghost all = digits@ + seq!['0', '0', '0', '0'];
    let kept: usize = if digits.len() - point > 4 {
        point + 4
    } else {
        digits.len()
    };
    let mut head: Vec<char> = Vec::new();
    let mut i: usize = 0;
    while i < kept
        invariant
            i <= kept <= digits.len(),
            all == digits@ + seq!['0', '0', '0', '0'],
            head@ == all.take(i as int),
        decreases kept - i,
    {
        head.push(digits[i]);
        assert(head@ == all.take(i + 1));
        i += 1;
    }
    let mut j: usize = kept - point;
    while j < 4
        invariant
            kept - point <= j <= 4,
            point <= kept <= digits.len(),
            kept - point < 4 ==> kept == digits.len(),
            all == digits@ + seq!['0', '0', '0', '0'],
            head@ == all.take(point + j),
        decreases 4 - j,
    {
        assert(all[point + j] == '0');
        head.push('0');
        assert(head@ == all.take(point + j + 1));
        j += 1;
    }
    head
}

/// The digits of what `digits`, with `point` of them in front of the point,
/// come to in hundredths of an inch, in a unit of which twice `half`
/// hundredths make an inch.
fn hundredths_digits(digits: &Vec<char>, point: usize, half: u32) -> (r: Vec<char>)
    requires
        all_digits(digits@),
        point <= digits.len(),
        0 < half <= 1000,
    ensures
        all_digits(r@),
        r@.len() >= 2,
        digits_value(r@) == digits_hundredths(digits@, point as int, 2 * half as nat),
{
    let head = leading_digits_of(digits, point);
    let tail_from: usize = if digits.len() - point > 4 {
        point + 4
    } else {
        digits.len()
    };
    assert(digits@.subrange(tail_from as int, digits@.len() as int) == trailing_part(
        digits@,
        point as int,
    ));
    let more: bool = holds_nonzero(digits, tail_from, digits.len());
    proof {
        lemma_parts_are_digits(digits@, point as int);
        lemma_hundredths_from_division(digits@, point as int, half as nat, more);
    }
    let (mut quotient, remainder) = divide_digits(&head, 2 * half);
    let odd: bool = ends_odd(&quotient);
    if remainder > half || (remainder == half && (more || odd)) {
        increment_digits(&mut quotient);
    }
    quotient
}

/// A numeral whose digits are all zeros is in range and comes to no
/// hundredths.
proof fn lemma_zero_numeral(n: Numeral, per_inch: nat)
    requires
        all_are(n.whole + n.fraction, '0'),
        per_inch > 0,
    ensures
        in_range(n),
        inches_hundredths(n, per_inch) == 0,
{
    let digits = n.whole + n.fraction;
    assert(all_digits(digits));
    lemma_zeros_value(digits);
    lemma_pow10_positive(MOST_WHOLE_DIGITS as nat);
    lemma_pow10_positive(n.fraction.len() + n.places_down());
    assert(n.numerator() == 0) by (nonlinear_arith)
        requires
            n.numerator() == digits_value(digits) * pow10(n.places_up()),
            digits_value(digits) == 0,
    ;
    assert(pow10(MOST_WHOLE_DIGITS as nat) * n.denominator() > 0) by (nonlinear_arith)
        requires
            pow10(MOST_WHOLE_DIGITS as nat) > 0,
            n.denominator() > 0,
    ;
    assert(per_inch * n.denominator() > 0) by (nonlinear_arith)
        requires
            per_inch > 0,
            n.denominator() > 0,
    ;
    lemma_round_small(0, per_inch * n.denominator());
}

/// A number of `digits` digits, times a power of ten, is below another
/// power of ten exactly where it has no more digits than that power has
/// zeros.
proof fn lemma_magnitude(value: nat, digits: nat, up: nat, limit: nat)
    requires
        digits >= 1,
        pow10((digits - 1) as nat) <= value < pow10(digits),
    ensures
        value * pow10(up) < pow10(limit) <==> digits + up <= limit,
{
    lemma_pow10_positive(up);
    if digits + up <= limit {
        lemma_pow10_adds(digits, up);
        lemma_pow10_increases(digits + up, limit);
        assert(value * pow10(up) < pow10(digits) * pow10(up)) by (nonlinear_arith)
            requires
                value < pow10(digits),
                pow10(up) > 0,
        ;
    } else {
        lemma_pow10_adds((digits - 1) as nat, up);
        lemma_pow10_increases(limit, (digits - 1 + up) as nat);
        assert(value * pow10(up) >= pow10((digits - 1) as nat) * pow10(up)) by (nonlinear_arith)
            requires
                value >= pow10((digits - 1) as nat),
                pow10(up) > 0,
        ;
    }
}

/// Whether a numeral is in range, from the number of its digits behind the
/// zeros that it begins with.
proof fn lemma_in_range(n: Numeral, skipped: int)
    requires
        all_digits(n.whole + n.fraction),
        0 <= skipped < (n.whole + n.fraction).len(),
        all_are((n.whole + n.fraction).take(skipped), '0'),
        (n.whole + n.fraction)[skipped] != '0',
    ensures
        in_range(n) <==> (n.whole + n.fraction).len() - skipped + n.places_up()
            <= MOST_WHOLE_DIGITS + n.fraction.len() + n.places_down(),
{
    let digits = n.whole + n.fraction;
    let rest = digits.skip(skipped);
    let limit = MOST_WHOLE_DIGITS as nat + (n.fraction.len() + n.places_down());
    assert(digits == digits.take(skipped) + rest);
    lemma_leading_zeros(digits.take(skipped), rest);
    lemma_all_digits_parts(digits, skipped, digits.len() as int);
    assert(rest == digits.subrange(skipped, digits.len() as int));
    lemma_digits_value_bound(rest);
    lemma_digits_value_floor(rest);
    lemma_pow10_adds(MOST_WHOLE_DIGITS as nat, n.fraction.len() + n.places_down());
    lemma_magnitude(digits_value(digits), rest.len(), n.places_up(), limit);
}

/// Whether a numeral is in range, from the number of its digits behind the
/// zeros that it begins with and from its exponent, which may be capped.
proof fn lemma_in_range_capped(n: Numeral, skipped: int, power: nat, cap: nat)
    requires
        all_digits(n.whole + n.fraction),
        0 <= skipped < (n.whole + n.fraction).len(),
        all_are((n.whole + n.fraction).take(skipped), '0'),
        (n.whole + n.fraction)[skipped] != '0',
        power == if n.places_up() + n.places_down() < cap {
            n.places_up() + n.places_down()
        } else {
            cap
        },
        cap > (n.whole + n.fraction).len() + MOST_WHOLE_DIGITS + n.fraction.len(),
    ensures
        in_range(n) <==> if n.exponent < 0 {
            (n.whole + n.fraction).len() - skipped <= MOST_WHOLE_DIGITS + n.fraction.len() + power
        } else {
            (n.whole + n.fraction).len() - skipped + power <= MOST_WHOLE_DIGITS + n.fraction.len()
        },
{
    lemma_in_range(n, skipped);
}

/// The digits of `n` with the zeros that its exponent stands for: behind
/// them, or in front of them where the exponent is negative.
spec fn moved_digits(n: Numeral) -> Seq<char> {
    if n.exponent < 0 {
        zeros(n.places_down()) + (n.whole + n.fraction)
    } else {
        n.whole + n.fraction + zeros(n.places_up())
    }
}

/// How many of `moved_digits` stand in front of the point.
spec fn moved_point(n: Numeral) -> int {
    (n.whole.len() + n.places_up()) as int
}

/// The hundredths of a numeral are those of its digits with the zeros that
/// its exponent stands for.
proof fn lemma_moved(n: Numeral, per_inch: nat)
    ensures
        inches_hundredths(n, per_inch) == digits_hundredths(
            moved_digits(n),
            moved_point(n),
            per_inch,
        ),
{
    let stated = n.whole + n.fraction;
    if n.exponent < 0 {
        lemma_leading_zeros(zeros(n.places_down()), stated);
        assert(pow10(0) == 1);
        assert(digits_value(stated) * pow10(0) == digits_value(stated)) by (nonlinear_arith)
            requires
                pow10(0) == 1,
        ;
    } else {
        lemma_trailing_zeros(stated, zeros(n.places_up()));
    }
}

/// A numeral whose exponent moves the point four places or more in front
/// of its digits comes to no hundredths.
proof fn lemma_moved_far_down(n: Numeral, per_inch: nat)
    requires
        all_digits(n.whole + n.fraction),
        n.exponent < 0,
        -n.exponent >= n.whole.len() + 4,
        per_inch >= 2,
    ensures
        inches_hundredths(n, per_inch) == 0,
{
    let stated = n.whole + n.fraction;
    let value = digits_value(stated);
    let low = pow10(stated.len());
    let den = n.denominator();
    lemma_digits_value_bound(stated);
    lemma_pow10_adds(stated.len(), 4);
    lemma_pow10_increases(stated.len() + 4, n.fraction.len() + n.places_down());
    assert(pow10(4) == 10000) by {
        reveal_with_fuel(pow10, 5);
    }
    assert(pow10(0) == 1);
    assert(n.numerator() == value) by (nonlinear_arith)
        requires
            n.numerator() == value * pow10(0),
            pow10(0) == 1,
    ;
    assert(low * 10000 <= den);
    assert(2 * (value * 10000) < per_inch * den) by (nonlinear_arith)
        requires
            value < low,
            low * 10000 <= den,
            per_inch >= 2,
    ;
    lemma_round_small(value * 10000, per_inch * den);
}

/// The digits of the whole and the fraction that `bounds` marks in `v`, one
/// behind the other.
fn stated_digits(v: &Vec<char>, bounds: &NumeralBounds) -> (digits: Vec<char>)
    requires
        bounds.marks_digits(v@),
    ensures
        digits@ == bounds.whole(v@) + bounds.fraction(v@),
        all_digits(digits@),
{
    let mut digits: Vec<char> = Vec::new();
    let mut i: usize = bounds.whole_from;
    while i < bounds.whole_to
        invariant
            bounds.whole_from <= i <= bounds.whole_to <= v.len(),
            digits@ == v@.subrange(bounds.whole_from as int, i as int),
        decreases bounds.whole_to - i,
    {
        digits.push(v[i]);
        i += 1;
    }
    let mut j: usize = bounds.fraction_from;
    while j < bounds.fraction_to
        invariant
            bounds.fraction_from <= j <= bounds.fraction_to <= v.len(),
            digits@ == bounds.whole(v@) + v@.subrange(bounds.fraction_from as int, j as int),
        decreases bounds.fraction_to - j,
    {
        digits.push(v[j]);
        j += 1;
    }
    proof {
        let all = bounds.whole(v@) + bounds.fraction(v@);
        assert forall|i: int| 0 <= i < all.len() implies is_digit(#[trigger] all[i]) by {
            if i < bounds.whole(v@).len() {
                assert(all[i] == bounds.whole(v@)[i]);
            } else {
                assert(all[i] == bounds.fraction(v@)[i - bounds.whole(v@).len()]);
            }
        }
    }
    digits
}

/// `digits` with `count` zeros behind them.
fn with_zeros_behind(digits: Vec<char>, count: u128) -> (r: Vec<char>)
    requires
        all_digits(digits@),
    ensures
        r@ == digits@ + zeros(count as nat),
        all_digits(r@),
{
    let ghost before = digits@;
    let mut r = digits;
    let mut i: u128 = 0;
    assert(r@ == before + zeros(0));
    while i < count
        invariant
            i <= count,
            r@ == before + zeros(i as nat),
            all_digits(r@),
        decreases count - i,
    {
        let ghost so_far = r@;
        r.push('0');
        proof {
            assert(zeros((i + 1) as nat) == zeros(i as nat).push('0'));
            assert(r@ == before + zeros((i + 1) as nat));
            assert forall|j: int| 0 <= j < r@.len() implies is_digit(#[trigger] r@[j]) by {
                if j < so_far.len() {
                    assert(r@[j] == so_far[j]);
                }
            }
        }
        i += 1;
    }
    r
}

/// `digits` with `count` zeros in front of them.
fn with_zeros_in_front(digits: &Vec<char>, count: u128) -> (r: Vec<char>)
    requires
        all_digits(digits@),
    ensures
        r@ == zeros(count as nat) + digits@,
        all_digits(r@),
{
    let mut r: Vec<char> = Vec::new();
    let mut i: u128 = 0;
    assert(r@ == zeros(0));
    while i < count
        invariant
            i <= count,
            r@ == zeros(i as nat),
        decreases count - i,
    {
        r.push('0');
        assert(zeros((i + 1) as nat) == zeros(i as nat).push('0'));
        i += 1;
    }
    let mut j: usize = 0;
    assert(r@ == zeros(count as nat) + digits@.take(0));
    while j < digits.len()
        invariant
            j <= digits.len(),
            r@ == zeros(count as nat) + digits@.take(j as int),
        decreases digits.len() - j,
    {
        r.push(digits[j]);
        assert(digits@.take(j + 1) == digits@.take(j as int).push(digits@[j as int]));
        j += 1;
    }
    proof {
        assert(digits@.take(digits@.len() as int) == digits@);
        assert forall|j: int| 0 <= j < r@.len() implies is_digit(#[trigger] r@[j]) by {
            if j < count {
                assert(r@[j] == zeros(count as nat)[j]);
            } else {
                assert(r@[j] == digits@[j - count]);
            }
        }
    }
    r
}

/// The digits of no hundredths.
fn no_hundredths() -> (r: Vec<char>)
    ensures
        all_digits(r@),
        r@.len() == 2,
        digits_value(r@) == 0,
{
    let r: Vec<char> = vec!['0', '0'];
    proof {
        assert(all_are(r@, '0'));
        assert(all_digits(r@));
        lemma_zeros_value(r@);
    }
    r
}

/// Exponents from this number on are all alike to `numeral_hundredths`: more
/// than any vector has places.
const CAPPED: u128 = 0x1_0000_0000_0000_0000_0000;

/// The digits of the hundredths of an inch nearest to the length that the
/// numeral marked by `bounds` in `v` states, in a unit of which twice `half`
/// hundredths make an inch. `None` where the numeral is out of range.
fn numeral_hundredths(v: &Vec<char>, bounds: &NumeralBounds, half: u32) -> (r: Option<Vec<char>>)
    requires
        bounds.marks_digits(v@),
        0 < half <= 1000,
    ensures
        match r {
            Some(digits) => {
                &&& in_range(bounds.numeral(v@))
                &&& all_digits(digits@)
                &&& digits@.len() >= 2
                &&& digits_value(digits@) == inches_hundredths(bounds.numeral(v@), 2 * half as nat)
            },
            None => !in_range(bounds.numeral(v@)),
        },
{
    let ghost n = bounds.numeral(v@);
    let stated = stated_digits(v, bounds);
    let skipped: usize = count_zeros(&stated, 0, stated.len());
    assert(stated@.subrange(0, skipped as int) == stated@.take(skipped as int));
    if skipped == stated.len() {
        proof {
            assert(stated@.take(skipped as int) == stated@);
            lemma_zero_numeral(n, 2 * half as nat);
        }
        return Some(no_hundredths());
    }
    let weight: u128 = (stated.len() - skipped) as u128;
    let most: u128 = MOST_WHOLE_DIGITS as u128 + (bounds.fraction_to - bounds.fraction_from) as u128;
    let power: u128 = read_capped(v, bounds.exponent_from, bounds.exponent_to, CAPPED);
    proof {
        lemma_in_range_capped(n, skipped as int, power as nat, CAPPED as nat);
        lemma_moved(n, 2 * half as nat);
    }
    if bounds.exponent_negative && power > 0 {
        if weight > most + power {
            None
        } else if power >= (bounds.whole_to - bounds.whole_from) as u128 + 4 {
            proof {
                lemma_moved_far_down(n, 2 * half as nat);
            }
            Some(no_hundredths())
        } else {
            let moved = with_zeros_in_front(&stated, power);
            Some(hundredths_digits(&moved, bounds.whole_to - bounds.whole_from, half))
        }
    } else {
        if weight + power > most {
            None
        } else {
            let moved = with_zeros_behind(stated, power);
            let point: usize = moved.len() - (bounds.fraction_to - bounds.fraction_from);
            Some(hundredths_digits(&moved, point, half))
        }
    }
}

/// The text of a length from the digits of its hundredths: the digits in
/// front of the last two, without the zeros they begin with, then a point
/// and the last two.
proof fn lemma_inches_text_of_digits(negative: bool, digits: Seq<char>, skipped: int)
    requires
        all_digits(digits),
        digits.len() >= 2,
        0 <= skipped <= digits.len() - 2,
        all_are(digits.take(skipped), '0'),
        skipped < digits.len() - 2 ==> digits[skipped] != '0',
    ensures
        inches_text(negative, digits_value(digits)) == (if negative {
            seq!['-']
        } else {
            Seq::empty()
        }) + (if skipped == digits.len() - 2 {
            seq!['0']
        } else {
            digits.subrange(skipped, digits.len() - 2)
        }) + seq!['.'] + digits.skip(digits.len() - 2),
{
    let n = digits.len() - 2;
    let whole = digits.take(n);
    let cents = digits.skip(n);
    let rest = digits.subrange(skipped, n);
    let hundredths = digits_value(digits);
    assert(digits == whole + cents);
    lemma_digits_value_concat(whole, cents);
    assert(pow10(2) == 100) by {
        reveal_with_fuel(pow10, 3);
    }
    lemma_all_digits_parts(digits, n, digits.len() as int);
    lemma_all_digits_parts(digits, skipped, n);
    assert(cents == digits.subrange(n, digits.len() as int));
    lemma_digits_value_bound(cents);
    lemma_padded_of_digits(cents);
    assert(hundredths == digits_value(whole) * 100 + digits_value(cents));
    assert(hundredths / 100 == digits_value(whole));
    assert(hundredths % 100 == digits_value(cents));
    assert(whole == digits.take(skipped) + rest);
    lemma_leading_zeros(digits.take(skipped), rest);
    if skipped < n {
        assert(rest.first() == digits[skipped]);
        lemma_decimal_of_digits(rest);
    } else {
        assert(rest.len() == 0);
        assert(digits_value(rest) == 0);
        assert(decimal(0) == seq!['0']);
    }
}

/// Writes out, in inches with two decimal places, the hundredths of an inch
/// that `digits` denotes.
fn inches_string(negative: bool, digits: &Vec<char>) -> (s: String)
    requires
        all_digits(digits@),
        digits@.len() >= 2,
    ensures
        s@ == inches_text(negative, digits_value(digits@)),
{
    let n: usize = digits.len() - 2;
    let skipped: usize = count_zeros(digits, 0, n);
    proof {
        assert(digits@.subrange(0, skipped as int) == digits@.take(skipped as int));
        lemma_inches_text_of_digits(negative, digits@, skipped as int);
    }
    let mut s = String::new();
    if negative {
        s.push('-');
    }
    let ghost sign = s@;
    if skipped == n {
        s.push('0');
    } else {
        let mut i: usize = skipped;
        while i < n
            invariant
                skipped <= i <= n,
                n + 2 == digits@.len(),
                s@ == sign + digits@.subrange(skipped as int, i as int),
            decreases n - i,
        {
            s.push(digits[i]);
            assert(digits@.subrange(skipped as int, i + 1) == digits@.subrange(
                skipped as int,
                i as int,
            ).push(digits@[i as int]));
            i += 1;
        }
    }
    let ghost whole = s@;
    s.push('.');
    s.push(digits[n]);
    s.push(digits[n + 1]);
    assert(s@ == whole + seq!['.'] + digits@.skip(n as int));
    s
}

impl ParsedData {
    /// Brings the height of a card into inches with two decimal places. The
    /// value is a decimal numeral of centimetres or of inches with `CM` or
    /// `IN` behind it. The length is worked out exactly and rounded to the
    /// nearest hundredth of an inch, a half to the even side. A value of
    /// another form gives `Invalid Height`.
    pub fn convert_height(height_str: &str) -> (height: String)
        ensures
            height@ == height_text(height_str@),
    {
        let v = chars_of(height_str);
        assert(v@.subrange(0, v@.len() as int) == v@);
        let (from, to) = trim_bounds(&v, 0, v.len());
        let ghost t = v@.subrange(from as int, to as int);
        if to - from < 2 {
            return "Invalid Height".to_owned();
        }
        assert(t[t.len() - 2] == v@[to - 2] && t[t.len() - 1] == v@[to - 1]);
        let half: u32 = if v[to - 2] == 'C' && v[to - 1] == 'M' {
            127
        } else if v[to - 2] == 'I' && v[to - 1] == 'N' {
            50
        } else {
            return "Invalid Height".to_owned();
        };
        assert(t.take(t.len() - 2) == v@.subrange(from as int, to - 2));
        let (first, last) = trim_bounds(&v, from, to - 2);
        match read_numeral(&v, first, last) {
            Some(bounds) => match numeral_hundredths(&v, &bounds, half) {
                Some(digits) => inches_string(bounds.negative, &digits),
                None => "Invalid Height".to_owned(),
            },
            None => "Invalid Height".to_owned(),
        }
    }
}

} // verus!
