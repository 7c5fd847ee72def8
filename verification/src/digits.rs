//! Arithmetic on digit strings of any length: division by a small number,
//! and adding one.

use crate::decimal::{
    all_are, all_digits, char_of_digit, digit_of, digit_value, digits_value, is_digit,
    lemma_digits_value_concat, lemma_nines_value, lemma_trailing_zeros, pow10,
};
use vstd::arithmetic::div_mod::{lemma_fundamental_div_mod, lemma_fundamental_div_mod_converse};
use vstd::prelude::*;

verus! {

/// One step of long division: from the quotient and remainder of a number,
/// those of the number with the digit `d` written behind it.
proof fn lemma_division_step(
    quotient: nat,
    remainder: nat,
    d: nat,
    divisor: nat,
    digit: nat,
    rest: nat,
)
    requires
        divisor > 0,
        remainder < divisor,
        d < 10,
        digit == (remainder * 10 + d) / divisor,
        rest == (remainder * 10 + d) % divisor,
    ensures
        digit < 10,
        rest < divisor,
        10 * (quotient * divisor + remainder) + d == (10 * quotient + digit) * divisor + rest,
{
    let current = remainder * 10 + d;
    lemma_fundamental_div_mod(current as int, divisor as int);
    vstd::arithmetic::div_mod::lemma_mod_bound(current as int, divisor as int);
    assert(current == digit * divisor + rest) by (nonlinear_arith)
        requires
            current == divisor * digit + rest,
    ;
    assert(digit < 10) by (nonlinear_arith)
        requires
            current == digit * divisor + rest,
            current < 10 * divisor,
            rest >= 0,
            divisor > 0,
    ;
    assert(10 * (quotient * divisor + remainder) + d == (10 * quotient + digit) * divisor + rest)
        by (nonlinear_arith)
        requires
            remainder * 10 + d == digit * divisor + rest,
    ;
}

/// Divides the number that `digits` denotes by `divisor`: the quotient, in
/// as many digits as `digits` has, and the remainder.
pub fn divide_digits(digits: &Vec<char>, divisor: u32) -> (r: (Vec<char>, u32))
    requires
        all_digits(digits@),
        0 < divisor <= 100_000_000,
    ensures
        r.0@.len() == digits@.len(),
        all_digits(r.0@),
        digits_value(r.0@) == digits_value(digits@) / (divisor as nat),
        r.1 == digits_value(digits@) % (divisor as nat),
{
    let mut quotient: Vec<char> = Vec::new();
    let mut remainder: u32 = 0;
    let mut i: usize = 0;
    proof {
        assert(digits@.take(0).len() == 0);
        assert(digits_value(quotient@) * divisor == 0) by (nonlinear_arith)
            requires
                digits_value(quotient@) == 0,
        ;
    }
    while i < digits.len()
        invariant
            i <= digits.len(),
            0 < divisor <= 100_000_000,
            all_digits(digits@),
            quotient@.len() == i,
            all_digits(quotient@),
            remainder < divisor,
            digits_value(digits@.take(i as int)) == digits_value(quotient@) * divisor + remainder,
        decreases digits.len() - i,
    {
        let ghost quotient_before = quotient@;
        let ghost remainder_before = remainder;
        assert(is_digit(digits@[i as int]));
        let d: u8 = match digit_of(digits[i]) {
            Some(d) => d,
            None => 0,
        };
        let current: u32 = remainder * 10 + d as u32;
        let digit: u32 = current / divisor;
        remainder = current % divisor;
        proof {
            lemma_division_step(
                digits_value(quotient_before),
                remainder_before as nat,
                d as nat,
                divisor as nat,
                digit as nat,
                remainder as nat,
            );
        }
        quotient.push(char_of_digit(digit as u8));
        proof {
            assert(digits@.take(i + 1).drop_last() == digits@.take(i as int));
            assert(quotient@.drop_last() == quotient_before);
            assert forall|j: int| 0 <= j < quotient@.len() implies is_digit(
                #[trigger] quotient@[j],
            ) by {
                if j < i {
                    assert(quotient@[j] == quotient_before[j]);
                }
            }
        }
        i += 1;
    }
    proof {
        assert(digits@.take(digits@.len() as int) == digits@);
        lemma_fundamental_div_mod_converse(
            digits_value(digits@) as int,
            divisor as int,
            digits_value(quotient@) as int,
            remainder as int,
        );
    }
    (quotient, remainder)
}

/// Adding one where the digit at `at` is no nine: that digit goes up by one
/// and the nines behind it become zeros.
proof fn lemma_increment_at(before: Seq<char>, after: Seq<char>, at: int)
    requires
        all_digits(before),
        0 <= at < before.len(),
        after.len() == before.len(),
        after.take(at) == before.take(at),
        digit_value(after[at]) == digit_value(before[at]) + 1,
        is_digit(after[at]),
        all_are(before.skip(at + 1), '9'),
        all_are(after.skip(at + 1), '0'),
    ensures
        all_digits(after),
        digits_value(after) == digits_value(before) + 1,
{
    let high = before.take(at + 1);
    let raised = after.take(at + 1);
    let nines = before.skip(at + 1);
    let zeros = after.skip(at + 1);
    assert(before == high + nines);
    assert(after == raised + zeros);
    assert(high.drop_last() == before.take(at));
    assert(raised.drop_last() == after.take(at));
    assert(digits_value(raised) == digits_value(high) + 1);
    lemma_digits_value_concat(high, nines);
    lemma_trailing_zeros(raised, zeros);
    lemma_nines_value(nines);
    let p = pow10(nines.len());
    assert((digits_value(high) + 1) * p == digits_value(high) * p + p) by (nonlinear_arith);
    assert forall|j: int| 0 <= j < after.len() implies is_digit(#[trigger] after[j]) by {
        if j < at {
            assert(after[j] == after.take(at)[j]);
            assert(before[j] == before.take(at)[j]);
        } else if j > at {
            assert(after[j] == zeros[j - at - 1]);
        }
    }
}

/// Adding one to nothing but nines: a one with as many zeros behind it.
proof fn lemma_increment_nines(before: Seq<char>, after: Seq<char>)
    requires
        all_are(before, '9'),
        after.len() == before.len() + 1,
        after[0] == '1',
        all_are(after.skip(1), '0'),
    ensures
        all_digits(after),
        digits_value(after) == digits_value(before) + 1,
{
    let zeros = after.skip(1);
    assert(after == seq!['1'] + zeros);
    assert(seq!['1'].drop_last().len() == 0);
    assert(digits_value(seq!['1']) == 1) by {
        reveal_with_fuel(digits_value, 2);
    }
    lemma_trailing_zeros(seq!['1'], zeros);
    lemma_nines_value(before);
    assert(digits_value(seq!['1']) * pow10(zeros.len()) == pow10(zeros.len()))
        by (nonlinear_arith)
        requires
            digits_value(seq!['1']) == 1,
    ;
    assert forall|j: int| 0 <= j < after.len() implies is_digit(#[trigger] after[j]) by {
        if j > 0 {
            assert(after[j] == zeros[j - 1]);
        }
    }
}

/// Adds one to the number that `digits` denotes. Where every digit is a
/// nine the result has one digit more.
pub fn increment_digits(digits: &mut Vec<char>)
    requires
        all_digits(old(digits)@),
    ensures
        all_digits(final(digits)@),
        digits_value(final(digits)@) == digits_value(old(digits)@) + 1,
        final(digits)@.len() >= old(digits)@.len(),
{
    let ghost before = digits@;
    let len: usize = digits.len();
    let mut i: usize = len;
    assert(digits@.skip(len as int).len() == 0);
    while i > 0
        invariant
            i <= len,
            digits@.len() == len,
            before == old(digits)@,
            before.len() == len,
            all_digits(before),
            digits@.take(i as int) == before.take(i as int),
            all_are(digits@.skip(i as int), '0'),
            all_are(before.skip(i as int), '9'),
        decreases i,
    {
        let ghost current = digits@;
        assert(current[i - 1] == current.take(i as int)[i - 1]);
        assert(before[i - 1] == before.take(i as int)[i - 1]);
        assert(is_digit(before[i - 1]));
        let d: u8 = match digit_of(digits[i - 1]) {
            Some(d) => d,
            None => 0,
        };
        if d < 9 {
            digits.set(i - 1, char_of_digit(d + 1));
            proof {
                assert(digits@.skip(i as int) == current.skip(i as int));
                assert(digits@.take(i - 1) == current.take(i as int).take(i - 1));
                assert(before.take(i - 1) == before.take(i as int).take(i - 1));
                lemma_increment_at(before, digits@, i - 1);
            }
            return ;
        }
        digits.set(i - 1, '0');
        proof {
            assert(before[i - 1] == '9');
            assert(digits@.take(i - 1) == current.take(i as int).take(i - 1));
            assert(before.take(i - 1) == before.take(i as int).take(i - 1));
            assert forall|j: int| 0 <= j < len - (i - 1) implies #[trigger] digits@.skip(i - 1)[j]
                == '0' by {
                if j > 0 {
                    assert(digits@.skip(i - 1)[j] == current.skip(i as int)[j - 1]);
                }
            }
            assert forall|j: int| 0 <= j < len - (i - 1) implies #[trigger] before.skip(i - 1)[j]
                == '9' by {
                if j > 0 {
                    assert(before.skip(i - 1)[j] == before.skip(i as int)[j - 1]);
                }
            }
        }
        i -= 1;
    }
    let ghost zeros = digits@;
    assert(zeros.skip(0) == zeros);
    assert(before.skip(0) == before);
    if len > 0 {
        digits.set(0, '1');
    }
    digits.push(if len > 0 {
        '0'
    } else {
        '1'
    });
    proof {
        assert forall|j: int| 0 <= j < len implies #[trigger] digits@.skip(1)[j] == '0' by {
            if j < len - 1 {
                assert(digits@.skip(1)[j] == zeros[j + 1]);
            }
        }
        lemma_increment_nines(before, digits@);
    }
}

/// The number of zeros that `v[from..to]` begins with.
pub fn count_zeros(v: &Vec<char>, from: usize, to: usize) -> (count: usize)
    requires
        from <= to <= v.len(),
    ensures
        count <= to - from,
        all_are(v@.subrange(from as int, from + count), '0'),
        from + count < to ==> v@[from + count] != '0',
{
    let mut i: usize = from;
    while i < to && v[i] == '0'
        invariant
            from <= i <= to <= v.len(),
            all_are(v@.subrange(from as int, i as int), '0'),
        decreases to - i,
    {
        assert forall|j: int| 0 <= j < i + 1 - from implies #[trigger] v@.subrange(
            from as int,
            i + 1,
        )[j] == '0' by {
            if j < i - from {
                assert(v@.subrange(from as int, i + 1)[j] == v@.subrange(from as int, i as int)[j]);
            }
        }
        i += 1;
    }
    i - from
}

/// The number that the digits `v[from..to]` denote, or `cap` where that is
/// less.
pub fn read_capped(v: &Vec<char>, from: usize, to: usize, cap: u128) -> (r: u128)
    requires
        from <= to <= v.len(),
        all_digits(v@.subrange(from as int, to as int)),
        cap <= 0x1_0000_0000_0000_0000_0000_0000,
    ensures
        r == if digits_value(v@.subrange(from as int, to as int)) < cap {
            digits_value(v@.subrange(from as int, to as int))
        } else {
            cap as nat
        },
{
    let ghost digits = v@.subrange(from as int, to as int);
    let mut value: u128 = 0;
    let mut i: usize = from;
    assert(digits.take(0).len() == 0);
    while i < to
        invariant
            from <= i <= to <= v.len(),
            digits == v@.subrange(from as int, to as int),
            all_digits(digits),
            cap <= 0x1_0000_0000_0000_0000_0000_0000,
            value <= cap,
            value == if digits_value(digits.take(i - from)) < cap {
                digits_value(digits.take(i - from))
            } else {
                cap as nat
            },
        decreases to - i,
    {
        assert(digits.take(i - from + 1).drop_last() == digits.take(i - from));
        assert(is_digit(digits[i - from]));
        let d: u8 = match digit_of(v[i]) {
            Some(d) => d,
            None => 0,
        };
        let next: u128 = value * 10 + d as u128;
        value = if next < cap {
            next
        } else {
            cap
        };
        i += 1;
    }
    assert(digits.take(to - from) == digits);
    value
}

/// Whether `v[from..to]` holds another character than the digit zero.
pub fn holds_nonzero(v: &Vec<char>, from: usize, to: usize) -> (b: bool)
    requires
        from <= to <= v.len(),
    ensures
        b == !all_are(v@.subrange(from as int, to as int), '0'),
{
    let mut i: usize = from;
    while i < to
        invariant
            from <= i <= to <= v.len(),
            all_are(v@.subrange(from as int, i as int), '0'),
        decreases to - i,
    {
        if v[i] != '0' {
            assert(v@.subrange(from as int, to as int)[i - from] != '0');
            return true;
        }
        assert forall|j: int| 0 <= j < i + 1 - from implies #[trigger] v@.subrange(
            from as int,
            i + 1,
        )[j] == '0' by {
            if j < i - from {
                assert(v@.subrange(from as int, i + 1)[j] == v@.subrange(from as int, i as int)[j]);
            }
        }
        i += 1;
    }
    false
}

/// Whether the number that `digits` denotes is odd.
pub fn ends_odd(digits: &Vec<char>) -> (odd: bool)
    requires
        all_digits(digits@),
        digits@.len() >= 1,
    ensures
        odd == (digits_value(digits@) % 2 == 1),
{
    assert(is_digit(digits@[digits@.len() - 1]));
    assert(digits_value(digits@) == 10 * digits_value(digits@.drop_last()) + digit_value(
        digits@.last(),
    ));
    match digit_of(digits[digits.len() - 1]) {
        Some(d) => d % 2 == 1,
        None => false,
    }
}

} // verus!
