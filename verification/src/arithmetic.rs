//! Machine arithmetic that stops at the bounds of its type.

use vstd::prelude::*;

verus! {

/// The `i32` nearest to a number.
pub open spec fn saturate_i32(value: int) -> i32 {
    if value > i32::MAX {
        i32::MAX
    } else if value < i32::MIN {
        i32::MIN
    } else {
        value as i32
    }
}

/// The `usize` after a value, or the value itself where there is none.
pub open spec fn next_usize(value: usize) -> usize {
    if value == usize::MAX {
        usize::MAX
    } else {
        (value + 1) as usize
    }
}

/// The larger of two numbers.
pub open spec fn larger(left: i32, right: i32) -> i32 {
    if left < right {
        right
    } else {
        left
    }
}

/// The smaller of two numbers.
pub open spec fn smaller(left: i32, right: i32) -> i32 {
    if right < left {
        right
    } else {
        left
    }
}

/// Division that rounds toward zero, by a positive divisor.
pub open spec fn truncated_quotient(value: int, divisor: int) -> int {
    if value >= 0 {
        value / divisor
    } else {
        -((-value) / divisor)
    }
}

pub(crate) fn clamp_to_i32(value: i64) -> (clamped: i32)
    ensures
        clamped == saturate_i32(value as int),
{
    if value > 2147483647 {
        i32::MAX
    } else if value < -2147483648 {
        i32::MIN
    } else {
        value as i32
    }
}

pub(crate) fn saturating_sum(left: i32, right: i32) -> (sum: i32)
    ensures
        sum == saturate_i32(left + right),
{
    clamp_to_i32(left as i64 + right as i64)
}

pub(crate) fn saturating_difference(left: i32, right: i32) -> (difference: i32)
    ensures
        difference == saturate_i32(left - right),
{
    clamp_to_i32(left as i64 - right as i64)
}

/// The product of two `i32` fits in an `i64`.
pub proof fn lemma_product_fits(left: int, right: int)
    requires
        i32::MIN <= left <= i32::MAX,
        i32::MIN <= right <= i32::MAX,
    ensures
        -0x4000_0000_0000_0000 <= left * right <= 0x4000_0000_0000_0000,
{
    let a = if left < 0 { -left } else { left };
    let b = if right < 0 { -right } else { right };
    assert(0 <= a * b <= 0x8000_0000 * 0x8000_0000) by (nonlinear_arith)
        requires
            0 <= a <= 0x8000_0000,
            0 <= b <= 0x8000_0000,
    ;
    assert(left * right == a * b || left * right == -(a * b)) by (nonlinear_arith)
        requires
            left == a || left == -a,
            right == b || right == -b,
    ;
}

pub(crate) fn saturating_product(left: i32, right: i32) -> (product: i32)
    ensures
        product == saturate_i32(left * right),
{
    proof {
        lemma_product_fits(left as int, right as int);
    }
    clamp_to_i32(left as i64 * right as i64)
}

pub(crate) fn greater_of(left: i32, right: i32) -> (value: i32)
    ensures
        value == larger(left, right),
{
    if left < right {
        right
    } else {
        left
    }
}

pub(crate) fn lesser_of(left: i32, right: i32) -> (value: i32)
    ensures
        value == smaller(left, right),
{
    if right < left {
        right
    } else {
        left
    }
}

/// Divides by a positive divisor, rounding toward zero.
pub(crate) fn truncating_division(value: i64, divisor: i64) -> (quotient: i64)
    requires
        divisor > 0,
        value > i64::MIN,
    ensures
        quotient == truncated_quotient(value as int, divisor as int),
{
    if value >= 0 {
        value / divisor
    } else {
        let magnitude: i64 = -value;
        assert(0 <= magnitude as int / divisor as int <= magnitude as int) by (nonlinear_arith)
            requires
                divisor > 0,
                magnitude > 0,
        ;
        -(magnitude / divisor)
    }
}

/// A saturated number is the number itself where it fits, and no `i32` is nearer to it.
pub proof fn lemma_saturated_is_nearest(value: int, other: i32)
    ensures
        i32::MIN <= value <= i32::MAX ==> saturate_i32(value) == value,
        value > i32::MAX ==> other <= saturate_i32(value) < value,
        value < i32::MIN ==> value < saturate_i32(value) <= other,
{
}

/// The larger and the smaller of two numbers are those numbers, in order.
pub proof fn lemma_larger_and_smaller(left: i32, right: i32)
    ensures
        smaller(left, right) <= left <= larger(left, right),
        smaller(left, right) <= right <= larger(left, right),
        smaller(left, right) + larger(left, right) == left + right,
{
}

/// A truncated quotient is the whole part of a fraction: it has the sign of the fraction, and what
/// it leaves out is less than one.
pub proof fn lemma_truncated_quotient(value: int, divisor: int)
    requires
        divisor > 0,
    ensures
        value >= 0 ==> 0 <= truncated_quotient(value, divisor) * divisor <= value
            < truncated_quotient(value, divisor) * divisor + divisor,
        value <= 0 ==> truncated_quotient(value, divisor) * divisor - divisor < value
            <= truncated_quotient(value, divisor) * divisor <= 0,
{
    let size = if value < 0 {
        -value
    } else {
        value
    };
    let whole = size / divisor;
    assert(0 <= whole * divisor <= size < whole * divisor + divisor) by (nonlinear_arith)
        requires
            size >= 0,
            divisor > 0,
            whole == size / divisor,
    ;
    assert((-whole) * divisor == -(whole * divisor)) by (nonlinear_arith);
}

} // verus!
