use vstd::prelude::*;
use vstd::arithmetic::logarithm::{log, lemma_log0, lemma_log_s};
use vstd::arithmetic::power::{pow, lemma_pow0, lemma_pow1, lemma_pow_increases, lemma_pow_positive, lemma_pow_strictly_increases};
use vstd::arithmetic::power2::{pow2, lemma_pow2, lemma2_to64, lemma_pow2_strictly_increases};
use vstd::arithmetic::mul::lemma_mul_is_commutative;
use crate::common_types::{BaseInt, InputInt};

verus! {

/// `b` raised to `e`, with `b` and `e` taken as plain numbers.
pub open spec fn power(b: int, e: int) -> int {
    pow(b, e as nat)
}

/// The floor of the logarithm of `n` in base `b`.
pub open spec fn floor_log(n: int, b: int) -> int {
    log(b, n)
}

/// The floor logarithm is bracketed by two consecutive powers.
pub proof fn lemma_floor_log_bounds(n: int, b: int)
    requires
        b >= 2,
        n >= 1,
    ensures
        floor_log(n, b) >= 0,
        power(b, floor_log(n, b)) <= n < power(b, floor_log(n, b) + 1),
    decreases n,
{
    if n < b {
        lemma_log0(b, n);
        lemma_pow0(b);
        lemma_pow1(b);
    } else {
        lemma_log_s(b, n);
        let m = n / b;
        assert(m >= 1 && m < n) by (nonlinear_arith)
            requires
                n >= b,
                b >= 2,
                m == n / b,
        ;
        lemma_floor_log_bounds(m, b);
        let l = floor_log(m, b);
        lemma_pow_step(b, l);
        lemma_pow_step(b, l + 1);
        let pl = power(b, l);
        let pl1 = power(b, l + 1);
        assert(b * pl <= n && n < b * pl1) by (nonlinear_arith)
            requires
                pl <= m < pl1,
                m == n / b,
                b >= 2,
        ;
    }
}

/// One more factor of the base.
pub proof fn lemma_pow_step(b: int, e: int)
    requires
        e >= 0,
    ensures
        power(b, e + 1) == b * power(b, e),
        power(b, e + 1) == power(b, e) * b,
{
    reveal(pow);
    lemma_mul_is_commutative(b, power(b, e));
}

/// Powers of a positive base grow with the exponent.
pub proof fn lemma_power_monotone(b: int, e1: int, e2: int)
    requires
        b >= 1,
        0 <= e1 <= e2,
    ensures
        0 < power(b, e1) <= power(b, e2),
{
    lemma_pow_increases(b as nat, e1 as nat, e2 as nat);
    lemma_pow_positive(b, e1 as nat);
}

/// Powers of a base of at least two grow strictly with the exponent.
pub proof fn lemma_power_strictly_monotone(b: int, e1: int, e2: int)
    requires
        b >= 2,
        0 <= e1 < e2,
    ensures
        0 < power(b, e1) < power(b, e2),
{
    lemma_pow_strictly_increases(b as nat, e1 as nat, e2 as nat);
    lemma_pow_positive(b, e1 as nat);
}

/// Powers of a non-negative base are non-negative.
pub proof fn lemma_power_nonneg(b: int, e: int)
    requires
        b >= 0,
        e >= 0,
    ensures
        power(b, e) >= 0,
    decreases e,
{
    reveal(pow);
    if e > 0 {
        lemma_power_nonneg(b, e - 1);
        lemma_pow_step(b, e - 1);
        let x = power(b, e - 1);
        assert(b * x >= 0) by (nonlinear_arith)
            requires
                b >= 0,
                x >= 0,
        ;
    }
}

/// Powers of a base of at least two are at least the matching powers of two.
pub proof fn lemma_power_at_least_pow2(b: int, e: int)
    requires
        b >= 2,
        e >= 0,
    ensures
        power(b, e) >= pow2(e as nat),
    decreases e,
{
    reveal(pow);
    if e > 0 {
        lemma_power_at_least_pow2(b, e - 1);
        lemma_pow_step(b, e - 1);
        lemma_pow_step(2, e - 1);
        let x = power(b, e - 1);
        let y = pow2((e - 1) as nat);
        lemma_pow2((e - 1) as nat);
        lemma_pow2(e as nat);
        assert(b * x >= 2 * y) by (nonlinear_arith)
            requires
                x >= y,
                b >= 2,
                y >= 0,
        ;
    }
}

/// A power of a base of at least two that fits in 32 bits has an exponent below 32.
pub proof fn lemma_small_exponent(b: int, e: int)
    requires
        b >= 2,
        e >= 0,
        power(b, e) <= u32::MAX,
    ensures
        e < 32,
{
    if e >= 32 {
        lemma_power_at_least_pow2(b, e);
        lemma2_to64();
        if e > 32 {
            lemma_pow2_strictly_increases(32, e as nat);
        }
    }
}

/// Calculate the integer logarithm of a number: the largest `r` with
/// `base^r <= number`, found by repeated division.
pub fn integer_log(number: InputInt, base: BaseInt) -> (r: u8)
    requires
        number >= 1,
        base >= 2,
    ensures
        r as int == floor_log(number as int, base as int),
        power(base as int, r as int) <= number < power(base as int, r as int + 1),
{
    let mut rest: InputInt = number;
    let mut r: u8 = 0;
    proof {
        lemma_floor_log_bounds(number as int, base as int);
        lemma_small_exponent(base as int, floor_log(number as int, base as int));
    }
    while rest >= base as InputInt
        invariant
            base >= 2,
            1 <= rest <= number,
            floor_log(number as int, base as int) < 32,
            floor_log(rest as int, base as int) >= 0,
            r + floor_log(rest as int, base as int) == floor_log(number as int, base as int),
        decreases rest,
    {
        proof {
            lemma_log_s(base as int, rest as int);
        }
        assert(rest as int / base as int >= 1) by (nonlinear_arith)
            requires
                rest >= base,
                base >= 2,
        ;
        rest = rest / base as InputInt;
        proof {
            lemma_floor_log_bounds(rest as int, base as int);
        }
        r = r + 1;
    }
    proof {
        lemma_log0(base as int, rest as int);
    }
    r
}

/// `base` raised to `exponent`, by repeated multiplication.
pub fn base_power(base: BaseInt, exponent: u8) -> (r: InputInt)
    requires
        base >= 1,
        power(base as int, exponent as int) <= u32::MAX,
    ensures
        r == power(base as int, exponent as int),
{
    let mut r: InputInt = 1;
    let mut i: u8 = 0;
    proof {
        lemma_pow0(base as int);
    }
    while i < exponent
        invariant
            i <= exponent,
            base >= 1,
            r == power(base as int, i as int),
            power(base as int, exponent as int) <= u32::MAX,
        decreases exponent - i,
    {
        proof {
            lemma_pow_step(base as int, i as int);
            lemma_power_monotone(base as int, i + 1, exponent as int);
        }
        r = r * base as InputInt;
        i = i + 1;
    }
    r
}

} // verus!
