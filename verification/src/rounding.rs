//! Rounding a quotient of natural numbers to the nearest whole number.

use vstd::arithmetic::div_mod::{
    lemma_fundamental_div_mod, lemma_fundamental_div_mod_converse, lemma_mod_bound,
};
use vstd::prelude::*;

verus! {

/// `num / den` rounded to the nearest natural number; of two that are
/// equally near, the even one.
pub open spec fn round_half_even(num: nat, den: nat) -> nat
    recommends
        den > 0,
{
    let quotient = num / den;
    let remainder = num % den;
    if 2 * remainder < den {
        quotient
    } else if 2 * remainder > den {
        quotient + 1
    } else if quotient % 2 == 0 {
        quotient
    } else {
        quotient + 1
    }
}

/// Whether a quotient is rounded up, from its remainder and half the
/// divisor: the remainder is more than that half, or it is that half and
/// either more follows or the quotient is odd.
pub open spec fn rounds_up(remainder: nat, half: nat, more: bool, odd: bool) -> bool {
    remainder > half || (remainder == half && (more || odd))
}

/// What a quotient rounds to is no further from it than a half.
pub proof fn lemma_round_nearest(num: nat, den: nat)
    requires
        den > 0,
    ensures
        2 * (round_half_even(num, den) * den) <= 2 * num + den,
        2 * num <= 2 * (round_half_even(num, den) * den) + den,
{
    let q = num / den;
    let r = num % den;
    lemma_fundamental_div_mod(num as int, den as int);
    lemma_mod_bound(num as int, den as int);
    assert(q * den == den * q) by (nonlinear_arith);
    assert((q + 1) * den == den * q + den) by (nonlinear_arith);
}

/// A factor common to both parts of a quotient does not change what it
/// rounds to.
pub proof fn lemma_round_scaled(num: nat, den: nat, factor: nat)
    requires
        den > 0,
        factor > 0,
    ensures
        round_half_even(factor * num, factor * den) == round_half_even(num, den),
{
    let q = num / den;
    let r = num % den;
    lemma_fundamental_div_mod(num as int, den as int);
    lemma_mod_bound(num as int, den as int);
    assert(factor * num == q * (factor * den) + factor * r) by (nonlinear_arith)
        requires
            num == den * q + r,
    ;
    assert(0 <= factor * r < factor * den) by (nonlinear_arith)
        requires
            0 <= r < den,
            factor > 0,
    ;
    lemma_fundamental_div_mod_converse(
        (factor * num) as int,
        (factor * den) as int,
        q as int,
        (factor * r) as int,
    );
    assert((2 * (factor * r) < factor * den) == (2 * r < den)) by (nonlinear_arith)
        requires
            factor > 0,
    ;
    assert((2 * (factor * r) > factor * den) == (2 * r > den)) by (nonlinear_arith)
        requires
            factor > 0,
    ;
}

/// A quotient of less than a half rounds to nothing.
pub proof fn lemma_round_small(num: nat, den: nat)
    requires
        2 * num < den,
    ensures
        round_half_even(num, den) == 0,
{
    lemma_fundamental_div_mod_converse(num as int, den as int, 0, num as int);
}

/// A number of the form `high * unit + low`, with `low` below `unit`,
/// divided by `den * unit`: the quotient is that of `high` by `den`, and the
/// remainder is that of `high` by `den`, times `unit`, plus `low`.
pub proof fn lemma_div_by_parts(high: nat, unit: nat, low: nat, den: nat)
    requires
        den > 0,
        unit > 0,
        low < unit,
    ensures
        (high * unit + low) / (den * unit) == high / den,
        (high * unit + low) % (den * unit) == (high % den) * unit + low,
{
    let q = high / den;
    let r = high % den;
    lemma_fundamental_div_mod(high as int, den as int);
    lemma_mod_bound(high as int, den as int);
    assert(high * unit + low == q * (den * unit) + (r * unit + low)) by (nonlinear_arith)
        requires
            high == den * q + r,
    ;
    assert(0 <= r * unit + low < den * unit) by (nonlinear_arith)
        requires
            0 <= r < den,
            0 <= low < unit,
    ;
    lemma_fundamental_div_mod_converse(
        (high * unit + low) as int,
        (den * unit) as int,
        q as int,
        (r * unit + low) as int,
    );
}

/// What `(high * unit + low) / (2 * half * unit)` rounds to, from the
/// quotient and remainder of `high` by `2 * half` and from whether `low` is
/// more than nothing.
pub proof fn lemma_round_by_parts(high: nat, unit: nat, low: nat, half: nat)
    requires
        half > 0,
        unit > 0,
        low < unit,
    ensures
        round_half_even(high * unit + low, (2 * half) * unit) == high / (2 * half) + if rounds_up(
            high % (2 * half),
            half,
            low > 0,
            (high / (2 * half)) % 2 == 1,
        ) {
            1nat
        } else {
            0nat
        },
{
    let den = 2 * half;
    let r = high % den;
    lemma_div_by_parts(high, unit, low, den);
    lemma_mod_bound(high as int, den as int);
    if r < half {
        assert(2 * (r * unit + low) < den * unit) by (nonlinear_arith)
            requires
                r + 1 <= half,
                den == 2 * half,
                0 <= low < unit,
        ;
    } else if r > half {
        assert(2 * (r * unit + low) > den * unit) by (nonlinear_arith)
            requires
                r >= half + 1,
                den == 2 * half,
                0 <= low,
                unit > 0,
        ;
    } else {
        assert(2 * (r * unit + low) == den * unit + 2 * low) by (nonlinear_arith)
            requires
                r == half,
                den == 2 * half,
        ;
    }
}

} // verus!
