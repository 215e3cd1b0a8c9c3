//! Division of marks rounded towards either infinity.
use vstd::prelude::*;

use crate::Mark;

verus! {

/// `a / b` rounded down, for a positive `b`.
pub open spec fn floor_div(a: int, b: int) -> int {
    a / b
}

/// `a / b` rounded up, for a positive `b`.
pub open spec fn ceil_div(a: int, b: int) -> int {
    -((-a) / b)
}

/// The rounded-down quotient is the largest `q` with `q * b <= a`.
pub proof fn lemma_floor_div_bounds(a: int, b: int)
    requires
        b > 0,
    ensures
        floor_div(a, b) * b <= a < (floor_div(a, b) + 1) * b,
{
    let q = a / b;
    vstd::arithmetic::div_mod::lemma_fundamental_div_mod(a, b);
    assert(q * b <= a < (q + 1) * b) by (nonlinear_arith)
        requires
            a == b * q + a % b,
            0 <= a % b < b,
    ;
}

/// The rounded-up quotient is the smallest `q` with `a <= q * b`.
pub proof fn lemma_ceil_div_bounds(a: int, b: int)
    requires
        b > 0,
    ensures
        (ceil_div(a, b) - 1) * b < a <= ceil_div(a, b) * b,
{
    lemma_floor_div_bounds(-a, b);
    assert((ceil_div(a, b) - 1) * b == -(((-a) / b + 1) * b)) by (nonlinear_arith);
    assert(ceil_div(a, b) * b == -(((-a) / b) * b)) by (nonlinear_arith);
}

/// How the truncating quotient of a negative `a` relates to the rounded-down one.
proof fn lemma_truncated_negative(a: int, b: int)
    requires
        b > 0,
        a < 0,
    ensures
        (-a) % b > 0 ==> a / b == -((-a) / b) - 1 && a / b >= a,
        (-a) % b == 0 ==> a / b == -((-a) / b),
{
    let q = (-a) / b;
    let r = (-a) % b;
    vstd::arithmetic::div_mod::lemma_fundamental_div_mod(-a, b);
    assert(q >= 0) by (nonlinear_arith)
        requires
            -a == b * q + r,
            0 <= r < b,
            a < 0,
    ;
    if r > 0 {
        assert(a == (-q - 1) * b + (b - r)) by (nonlinear_arith)
            requires
                -a == b * q + r,
        ;
        vstd::arithmetic::div_mod::lemma_fundamental_div_mod_converse(a, b, -q - 1, b - r);
        assert(q <= b * q) by (nonlinear_arith)
            requires
                q >= 0,
                b >= 1,
        ;
    } else {
        assert(a == (-q) * b + 0) by (nonlinear_arith)
            requires
                -a == b * q + r,
                r == 0,
        ;
        vstd::arithmetic::div_mod::lemma_fundamental_div_mod_converse(a, b, -q, 0);
    }
}

/// How the truncating quotient of a non-negative `a` relates to the rounded-up one.
proof fn lemma_truncated_non_negative(a: int, b: int)
    requires
        b > 0,
        a >= 0,
    ensures
        a % b > 0 ==> ceil_div(a, b) == a / b + 1 && a / b + 1 <= a,
        a % b == 0 ==> ceil_div(a, b) == a / b,
{
    let q = a / b;
    let r = a % b;
    vstd::arithmetic::div_mod::lemma_fundamental_div_mod(a, b);
    assert(q >= 0) by (nonlinear_arith)
        requires
            a == b * q + r,
            0 <= r < b,
            a >= 0,
    ;
    if r > 0 {
        assert(-a == (-q - 1) * b + (b - r)) by (nonlinear_arith)
            requires
                a == b * q + r,
        ;
        vstd::arithmetic::div_mod::lemma_fundamental_div_mod_converse(-a, b, -q - 1, b - r);
        assert(q <= b * q) by (nonlinear_arith)
            requires
                q >= 0,
                b >= 1,
        ;
    } else {
        assert(-a == (-q) * b + 0) by (nonlinear_arith)
            requires
                a == b * q + r,
                r == 0,
        ;
        vstd::arithmetic::div_mod::lemma_fundamental_div_mod_converse(-a, b, -q, 0);
    }
}

/// Divides two marks, rounding towards negative infinity.
pub fn divide_towards_negative_infinity(a: Mark, b: Mark) -> (r: Mark)
    requires
        b > 0,
    ensures
        r == floor_div(a as int, b as int),
{
    let q = a / b;
    let rem = a % b;
    proof {
        if a < 0 {
            lemma_truncated_negative(a as int, b as int);
        }
    }
    if rem < 0 {
        q - 1
    } else {
        q
    }
}

/// Divides two marks, rounding towards positive infinity.
pub fn divide_towards_positive_infinity(a: Mark, b: Mark) -> (r: Mark)
    requires
        b > 0,
    ensures
        r == ceil_div(a as int, b as int),
{
    let q = a / b;
    let rem = a % b;
    proof {
        if a >= 0 {
            lemma_truncated_non_negative(a as int, b as int);
        }
    }
    if rem > 0 {
        q + 1
    } else {
        q
    }
}

/// Rounding a quotient either way never decreases as the dividend grows.
pub proof fn lemma_division_monotone(a: int, b: int, d: int)
    requires
        d > 0,
        a <= b,
    ensures
        floor_div(a, d) <= floor_div(b, d),
        ceil_div(a, d) <= ceil_div(b, d),
{
    lemma_floor_div_bounds(a, d);
    lemma_floor_div_bounds(b, d);
    lemma_ceil_div_bounds(a, d);
    lemma_ceil_div_bounds(b, d);
    if floor_div(a, d) > floor_div(b, d) {
        assert((floor_div(b, d) + 1) * d <= floor_div(a, d) * d) by (nonlinear_arith)
            requires
                floor_div(b, d) + 1 <= floor_div(a, d),
                d > 0,
        ;
    }
    if ceil_div(a, d) > ceil_div(b, d) {
        assert(ceil_div(b, d) * d <= (ceil_div(a, d) - 1) * d) by (nonlinear_arith)
            requires
                ceil_div(b, d) <= ceil_div(a, d) - 1,
                d > 0,
        ;
    }
}

/// Scaling a mark down, rounded either way, then back up lands at most one
/// unit away on either side of it, and scaling a mark up then back down
/// gives it back.
pub proof fn lemma_division_round_trip(a: int, q: int, d: int)
    requires
        d > 0,
    ensures
        floor_div(a, d) * d <= a <= ceil_div(a, d) * d,
        a - floor_div(a, d) * d < d,
        ceil_div(a, d) * d - a < d,
        0 <= ceil_div(a, d) - floor_div(a, d) <= 1,
        floor_div(q * d, d) == q,
        ceil_div(q * d, d) == q,
{
    lemma_floor_div_bounds(a, d);
    lemma_ceil_div_bounds(a, d);
    let f = floor_div(a, d);
    let c = ceil_div(a, d);
    assert(f <= c <= f + 1 && a - f * d < d && c * d - a < d) by (nonlinear_arith)
        requires
            f * d <= a < (f + 1) * d,
            (c - 1) * d < a <= c * d,
            d > 0,
    ;
    vstd::arithmetic::div_mod::lemma_fundamental_div_mod_converse(q * d, d, q, 0);
    assert(-(q * d) == (-q) * d) by (nonlinear_arith);
    vstd::arithmetic::div_mod::lemma_fundamental_div_mod_converse(-(q * d), d, -q, 0);
}

/// Scaling a mark up by a fixed positive ratio never decreases as the mark
/// grows.
pub proof fn lemma_multiplication_monotone(a: int, b: int, ratio: int)
    requires
        ratio > 0,
        a <= b,
    ensures
        a * ratio <= b * ratio,
{
    assert(a * ratio <= b * ratio) by (nonlinear_arith)
        requires
            ratio > 0,
            a <= b,
    ;
}

} // verus!
