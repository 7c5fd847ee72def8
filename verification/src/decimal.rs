//! Decimal notation: what a string of digits denotes, how a number is
//! written out, and unsigned numerals.

use vstd::prelude::*;

verus! {

/// Whether `c` is one of the ten ASCII digits.
pub open spec fn is_digit(c: char) -> bool {
    '0' <= c && c <= '9'
}

/// The number that the digit `c` stands for.
pub open spec fn digit_value(c: char) -> nat
    recommends
        is_digit(c),
{
    (c as u32 - '0' as u32) as nat
}

/// The digit that stands for `d`.
pub open spec fn digit_char(d: nat) -> char
    recommends
        d < 10,
{
    (d + '0' as u32) as char
}

/// Whether every character of `s` is a digit.
pub open spec fn all_digits(s: Seq<char>) -> bool {
    forall|i: int| 0 <= i < s.len() ==> is_digit(#[trigger] s[i])
}

/// Whether every character of `s` is `c`.
pub open spec fn all_are(s: Seq<char>, c: char) -> bool {
    forall|i: int| 0 <= i < s.len() ==> #[trigger] s[i] == c
}

/// A string of `count` zeros.
pub open spec fn zeros(count: nat) -> Seq<char> {
    Seq::new(count, |i: int| '0')
}

/// Ten to the power of `k`.
pub open spec fn pow10(k: nat) -> nat
    decreases k,
{
    if k == 0 {
        1
    } else {
        10 * pow10((k - 1) as nat)
    }
}

/// The number that the digit string `s` denotes, most significant digit
/// first.
pub open spec fn digits_value(s: Seq<char>) -> nat
    recommends
        all_digits(s),
    decreases s.len(),
{
    if s.len() == 0 {
        0
    } else {
        10 * digits_value(s.drop_last()) + digit_value(s.last())
    }
}

/// The decimal digits of `n`, with zeros in front up to `width` characters.
pub open spec fn padded(n: nat, width: nat) -> Seq<char>
    decreases n + width,
{
    if n < 10 && width <= 1 {
        seq![digit_char(n)]
    } else {
        padded(
            n / 10,
            if width > 0 {
                (width - 1) as nat
            } else {
                0
            },
        ).push(digit_char(n % 10))
    }
}

/// The decimal digits of `n`.
pub open spec fn decimal(n: nat) -> Seq<char> {
    padded(n, 1)
}

/// The digits of the unsigned numeral `s`: `s` itself, or what follows its
/// leading plus sign.
pub open spec fn numeral_digits(s: Seq<char>) -> Seq<char> {
    if s.len() > 0 && s.first() == '+' {
        s.drop_first()
    } else {
        s
    }
}

/// The number that `s` denotes as an unsigned decimal numeral: an optional
/// plus sign, then one digit or more. `None` where `s` is no such numeral.
pub open spec fn unsigned_value(s: Seq<char>) -> Option<nat> {
    let digits = numeral_digits(s);
    if digits.len() > 0 && all_digits(digits) {
        Some(digits_value(digits))
    } else {
        None
    }
}

/// The number that `s` denotes, where it is an unsigned numeral of a number
/// up to `limit`.
pub open spec fn unsigned_value_up_to(s: Seq<char>, limit: nat) -> Option<nat> {
    match unsigned_value(s) {
        Some(n) if n <= limit => Some(n),
        _ => None,
    }
}

/// A power of ten is not zero.
pub proof fn lemma_pow10_positive(k: nat)
    ensures
        pow10(k) > 0,
    decreases k,
{
    if k > 0 {
        lemma_pow10_positive((k - 1) as nat);
    }
}

/// Powers of ten grow with the exponent.
pub proof fn lemma_pow10_increases(a: nat, b: nat)
    requires
        a <= b,
    ensures
        pow10(a) <= pow10(b),
    decreases b,
{
    if a < b {
        lemma_pow10_increases(a, (b - 1) as nat);
    }
}

/// The power of a sum is the product of the powers.
pub proof fn lemma_pow10_adds(a: nat, b: nat)
    ensures
        pow10(a + b) == pow10(a) * pow10(b),
    decreases a,
{
    if a == 0 {
        assert(pow10(a) * pow10(b) == pow10(b)) by (nonlinear_arith)
            requires
                pow10(a) == 1,
        ;
    } else {
        let rest = pow10((a - 1) as nat);
        lemma_pow10_adds((a - 1) as nat, b);
        assert(pow10(a + b) == 10 * pow10((a - 1 + b) as nat));
        assert(10 * (rest * pow10(b)) == (10 * rest) * pow10(b)) by (nonlinear_arith);
    }
}

/// A string of `n` digits denotes a number below the `n`-th power of ten.
pub proof fn lemma_digits_value_bound(s: Seq<char>)
    requires
        all_digits(s),
    ensures
        digits_value(s) < pow10(s.len()),
    decreases s.len(),
{
    if s.len() > 0 {
        lemma_digits_value_bound(s.drop_last());
    }
}

/// A digit string that begins with another digit than zero denotes no less
/// than the power of ten of one less than its length.
pub proof fn lemma_digits_value_floor(s: Seq<char>)
    requires
        all_digits(s),
        s.len() >= 1,
        s.first() != '0',
    ensures
        digits_value(s) >= pow10((s.len() - 1) as nat),
    decreases s.len(),
{
    if s.len() == 1 {
        assert(is_digit(s[0]));
        assert(s.drop_last().len() == 0);
        assert(digits_value(s.drop_last()) == 0);
    } else {
        let t = s.drop_last();
        lemma_all_digits_parts(s, 0, s.len() - 1);
        assert(t == s.subrange(0, s.len() - 1));
        assert(t.first() == s.first());
        lemma_digits_value_floor(t);
    }
}

/// The value of two digit strings written one behind the other.
pub proof fn lemma_digits_value_concat(x: Seq<char>, y: Seq<char>)
    ensures
        digits_value(x + y) == digits_value(x) * pow10(y.len()) + digits_value(y),
    decreases y.len(),
{
    if y.len() == 0 {
        assert(x + y == x);
        assert(digits_value(x) * pow10(y.len()) == digits_value(x)) by (nonlinear_arith)
            requires
                pow10(y.len()) == 1,
        ;
    } else {
        assert((x + y).drop_last() == x + y.drop_last());
        lemma_digits_value_concat(x, y.drop_last());
        let p = pow10((y.len() - 1) as nat);
        assert(pow10(y.len()) == 10 * p);
        assert(10 * (digits_value(x) * p) == digits_value(x) * (10 * p)) by (nonlinear_arith);
    }
}

/// A digit string denotes zero exactly where all its digits are zeros.
pub proof fn lemma_zeros_value(s: Seq<char>)
    requires
        all_digits(s),
    ensures
        digits_value(s) == 0 <==> all_are(s, '0'),
    decreases s.len(),
{
    if s.len() > 0 {
        let t = s.drop_last();
        lemma_zeros_value(t);
        if all_are(s, '0') {
            assert forall|i: int| 0 <= i < t.len() implies #[trigger] t[i] == '0' by {
                assert(t[i] == s[i]);
            }
        }
        if digits_value(s) == 0 {
            assert(is_digit(s[s.len() - 1]));
            assert forall|i: int| 0 <= i < s.len() implies #[trigger] s[i] == '0' by {
                if i < t.len() {
                    assert(s[i] == t[i]);
                }
            }
        }
    }
}

/// Zeros in front of a digit string do not change what it denotes.
pub proof fn lemma_leading_zeros(zeros: Seq<char>, s: Seq<char>)
    requires
        all_are(zeros, '0'),
    ensures
        digits_value(zeros + s) == digits_value(s),
{
    lemma_zeros_value(zeros);
    lemma_digits_value_concat(zeros, s);
    assert(digits_value(zeros) * pow10(s.len()) == 0) by (nonlinear_arith)
        requires
            digits_value(zeros) == 0,
    ;
}

/// Zeros behind a digit string multiply what it denotes by a power of ten.
pub proof fn lemma_trailing_zeros(s: Seq<char>, zeros: Seq<char>)
    requires
        all_are(zeros, '0'),
    ensures
        digits_value(s + zeros) == digits_value(s) * pow10(zeros.len()),
{
    lemma_zeros_value(zeros);
    lemma_digits_value_concat(s, zeros);
}

/// A string of `n` nines denotes the number just below the `n`-th power of
/// ten.
pub proof fn lemma_nines_value(s: Seq<char>)
    requires
        all_are(s, '9'),
    ensures
        digits_value(s) + 1 == pow10(s.len()),
    decreases s.len(),
{
    if s.len() > 0 {
        let t = s.drop_last();
        assert forall|i: int| 0 <= i < t.len() implies #[trigger] t[i] == '9' by {
            assert(t[i] == s[i]);
        }
        lemma_nines_value(t);
        assert(s[s.len() - 1] == '9');
    }
}

/// The part of a digit string in front of any place is a digit string.
pub proof fn lemma_all_digits_parts(s: Seq<char>, from: int, to: int)
    requires
        all_digits(s),
        0 <= from <= to <= s.len(),
    ensures
        all_digits(s.subrange(from, to)),
{
    assert forall|i: int| 0 <= i < to - from implies is_digit(#[trigger] s.subrange(from, to)[i]) by {
        assert(s.subrange(from, to)[i] == s[from + i]);
    }
}

/// `padded` gives digits only, as many as asked for or more, and one at
/// least.
pub proof fn lemma_padded_digits(n: nat, width: nat)
    ensures
        all_digits(padded(n, width)),
        padded(n, width).len() >= width,
        padded(n, width).len() >= 1,
    decreases n + width,
{
    if n < 10 && width <= 1 {
        assert(is_digit(digit_char(n)));
    } else {
        let less: nat = if width > 0 {
            (width - 1) as nat
        } else {
            0
        };
        let rest = padded(n / 10, less);
        lemma_padded_digits(n / 10, less);
        assert(is_digit(digit_char(n % 10)));
        assert forall|i: int| 0 <= i < padded(n, width).len() implies is_digit(
            #[trigger] padded(n, width)[i],
        ) by {
            if i < rest.len() {
                assert(padded(n, width)[i] == rest[i]);
            }
        }
    }
}

/// A number below the `width`-th power of ten takes `width` characters.
pub proof fn lemma_padded_width(n: nat, width: nat)
    requires
        width >= 1,
        n < pow10(width),
    ensures
        padded(n, width).len() == width,
    decreases width,
{
    if n < 10 && width <= 1 {
    } else {
        assert(pow10(1) == 10) by {
            reveal_with_fuel(pow10, 2);
        }
        assert(width >= 2);
        lemma_padded_width(n / 10, (width - 1) as nat);
    }
}

/// A digit string is the number it denotes, written out with zeros in front
/// up to the length of the string.
pub proof fn lemma_padded_of_digits(s: Seq<char>)
    requires
        all_digits(s),
        s.len() >= 1,
    ensures
        padded(digits_value(s), s.len()) == s,
    decreases s.len(),
{
    let t = s.drop_last();
    let c = s.last();
    let n = digits_value(s);
    assert(is_digit(c));
    assert(digit_char(digit_value(c)) == c);
    assert(n / 10 == digits_value(t));
    assert(n % 10 == digit_value(c));
    if s.len() == 1 {
        assert(t.len() == 0);
        assert(digits_value(t) == 0);
        assert(padded(n, 1) == seq![c]);
    } else {
        lemma_all_digits_parts(s, 0, s.len() - 1);
        assert(t == s.subrange(0, s.len() - 1));
        lemma_padded_of_digits(t);
        assert(t.push(c) == s);
    }
}

/// A digit string that begins with another digit than zero is the decimal
/// form of the number it denotes.
pub proof fn lemma_decimal_of_digits(s: Seq<char>)
    requires
        all_digits(s),
        s.len() > 0,
        s.first() != '0',
    ensures
        digits_value(s) > 0,
        decimal(digits_value(s)) == s,
    decreases s.len(),
{
    let t = s.drop_last();
    let c = s.last();
    let n = digits_value(s);
    assert(is_digit(c));
    assert(digit_char(digit_value(c)) == c);
    assert(n / 10 == digits_value(t));
    assert(n % 10 == digit_value(c));
    if s.len() == 1 {
        assert(t.len() == 0);
        assert(digits_value(t) == 0);
        assert(is_digit(s[0]));
        assert(decimal(n) == seq![c]);
    } else {
        lemma_all_digits_parts(s, 0, s.len() - 1);
        assert(t == s.subrange(0, s.len() - 1));
        assert(t.first() == s.first());
        lemma_decimal_of_digits(t);
        assert(padded(n, 1) == padded(n / 10, 0).push(digit_char(n % 10)));
        assert(padded(n / 10, 0) == decimal(n / 10));
        assert(t.push(c) == s);
    }
}

/// The value of the digit `c`, if it is one.
pub fn digit_of(c: char) -> (d: Option<u8>)
    ensures
        d is Some <==> is_digit(c),
        d matches Some(x) ==> x == digit_value(c) && x < 10,
{
    if '0' <= c && c <= '9' {
        Some((c as u32 - '0' as u32) as u8)
    } else {
        None
    }
}

/// The digit that stands for `d`.
pub fn char_of_digit(d: u8) -> (c: char)
    requires
        d < 10,
    ensures
        c == digit_char(d as nat),
        is_digit(c),
        digit_value(c) == d,
{
    (d + '0' as u8) as char
}

/// Reads `v[from..to]` as an unsigned numeral of a number up to `limit`.
pub fn read_unsigned(v: &Vec<char>, from: usize, to: usize, limit: u32) -> (r: Option<u32>)
    requires
        from <= to <= v.len(),
    ensures
        match unsigned_value_up_to(v@.subrange(from as int, to as int), limit as nat) {
            Some(n) => r == Some(n as u32),
            None => r is None,
        },
{
    let start: usize = if from < to && v[from] == '+' {
        from + 1
    } else {
        from
    };
    let ghost digits = v@.subrange(start as int, to as int);
    assert(digits == numeral_digits(v@.subrange(from as int, to as int)));
    if start == to {
        return None;
    }
    let mut value: u64 = 0;
    let mut over: bool = false;
    let mut i: usize = start;
    while i < to
        invariant
            from <= start <= i <= to <= v.len(),
            digits == v@.subrange(start as int, to as int),
            digits == numeral_digits(v@.subrange(from as int, to as int)),
            all_digits(digits.take(i - start)),
            over ==> digits_value(digits.take(i - start)) > limit,
            !over ==> value == digits_value(digits.take(i - start)) && value <= limit,
        decreases to - i,
    {
        let ghost before = digits.take(i - start);
        let ghost after = digits.take(i - start + 1);
        assert(after.drop_last() == before);
        match digit_of(v[i]) {
            None => {
                assert(!is_digit(digits[i - start]));
                return None;
            },
            Some(d) => {
                if !over {
                    value = value * 10 + d as u64;
                    if value > limit as u64 {
                        over = true;
                    }
                }
            },
        }
        i += 1;
    }
    assert(digits.take(to - start) == digits);
    if over {
        None
    } else {
        Some(value as u32)
    }
}

/// Appends to `out` the decimal digits of `n`, with zeros in front up to
/// `width` characters.
pub fn append_padded(out: &mut String, n: u32, width: usize)
    ensures
        final(out)@ == old(out)@ + padded(n as nat, width as nat),
    decreases n + width,
{
    if n < 10 && width <= 1 {
        out.push(char_of_digit(n as u8));
    } else {
        let rest: usize = if width > 0 {
            width - 1
        } else {
            0
        };
        append_padded(out, n / 10, rest);
        out.push(char_of_digit((n % 10) as u8));
    }
}

} // verus!
