//! Deterministic fixed-point arithmetic used by every transition.
//!
//! A [`FixedPoint`] is a signed value with 64 integer bits and 64 fractional
//! bits, held as its raw numerator `bits`: the value represented is
//! `bits / 2^64`. All arithmetic is delegated to the `fixed` crate (and the
//! square root to `fixed-sqrt`); each delegated operation is wrapped once,
//! with its exact rounding behaviour stated over `bits`. Rounding direction
//! is explicit at every call site: nothing here rounds silently.

use vstd::prelude::*;
use crate::errors::CustomError;

verus! {

/// The smallest `u64` that does not fit the 64 signed integer bits: `2^63`.
pub const INT_OVERFLOW: u64 = 0x8000_0000_0000_0000;

/// One in the fixed-point scale, as a specification integer.
pub open spec fn fone() -> int {
    0x1_0000_0000_0000_0000
}

/// The raw numerator of the product of two fixed-point values: the exact
/// product of their numerators, rounded down at `2^-64` precision.
pub open spec fn mul_bits(a: int, b: int) -> int {
    (a * b) / fone()
}

/// The raw numerator of the quotient of two fixed-point values: the dividend
/// widened by 64 bits, divided by the divisor and rounded down.
pub open spec fn div_bits(a: int, b: int) -> int {
    (a * fone()) / b
}

/// The integer below a non-negative fixed-point value.
pub open spec fn floor_bits(bits: int) -> int {
    bits / fone()
}

/// The integer above a non-negative fixed-point value.
pub open spec fn ceil_bits(bits: int) -> int {
    (bits + (fone() - 1)) / fone()
}

/// `r` is the integer square root of `n`: the largest integer whose square
/// does not exceed `n`.
pub open spec fn is_isqrt(n: int, r: int) -> bool {
    &&& r >= 0
    &&& r * r <= n
    &&& n < (r + 1) * (r + 1)
}

/// A signed fixed-point number with 64 integer and 64 fractional bits,
/// representing the value `bits / 2^64`.
#[derive(Clone, Copy, Debug, PartialEq, Eq, Structural)]
pub struct FixedPoint {
    pub bits: i128,
}

/// Relies on `fixed::FixedI128::<U64>::checked_from_num::<u64>`: the integer
/// scaled by `2^64`, or `None` when it exceeds the largest representable
/// integer, `2^63 - 1`.
#[verifier::external_body]
fn fp_checked_from_u64(x: u64) -> (r: Option<FixedPoint>)
    ensures
        r is Some <==> x < INT_OVERFLOW,
        r matches Some(v) ==> v.bits as int == x as int * fone(),
{
    match fixed::types::I64F64::checked_from_num(x) {
        Some(f) => Some(FixedPoint { bits: f.to_bits() }),
        None => None,
    }
}

/// Relies on `fixed::FixedI128::<U64>::checked_add`: the exact sum of the raw
/// numerators, or `None` when it overflows `i128`.
#[verifier::external_body]
fn fp_checked_add(a: FixedPoint, b: FixedPoint) -> (r: Option<FixedPoint>)
    requires
        a.bits >= 0,
        b.bits >= 0,
    ensures
        r is Some <==> a.bits as int + b.bits as int <= i128::MAX as int,
        r matches Some(v) ==> v.bits as int == a.bits as int + b.bits as int,
{
    let x = fixed::types::I64F64::from_bits(a.bits);
    let y = fixed::types::I64F64::from_bits(b.bits);
    match x.checked_add(y) {
        Some(f) => Some(FixedPoint { bits: f.to_bits() }),
        None => None,
    }
}

/// Relies on `fixed::FixedI128::<U64>::checked_mul`: the 256-bit product of
/// the raw numerators shifted right by 64, so for non-negative operands the
/// exact product rounded down at `2^-64` precision, or `None` when that does
/// not fit `i128`.
#[verifier::external_body]
fn fp_checked_mul(a: FixedPoint, b: FixedPoint) -> (r: Option<FixedPoint>)
    requires
        a.bits >= 0,
        b.bits >= 0,
    ensures
        r is Some <==> mul_bits(a.bits as int, b.bits as int) <= i128::MAX as int,
        r matches Some(v) ==> v.bits as int == mul_bits(a.bits as int, b.bits as int),
{
    let x = fixed::types::I64F64::from_bits(a.bits);
    let y = fixed::types::I64F64::from_bits(b.bits);
    match x.checked_mul(y) {
        Some(f) => Some(FixedPoint { bits: f.to_bits() }),
        None => None,
    }
}

/// Relies on `fixed::FixedI128::<U64>::checked_div`: the dividend's raw
/// numerator widened by 64 bits and divided by the divisor's, so for
/// non-negative operands the exact quotient rounded down at `2^-64`
/// precision; `None` when the divisor is zero or the quotient overflows.
#[verifier::external_body]
fn fp_checked_div(a: FixedPoint, b: FixedPoint) -> (r: Option<FixedPoint>)
    requires
        a.bits >= 0,
        b.bits >= 0,
    ensures
        r is Some <==> (b.bits > 0 && div_bits(a.bits as int, b.bits as int) <= i128::MAX as int),
        r matches Some(v) ==> v.bits as int == div_bits(a.bits as int, b.bits as int),
{
    let x = fixed::types::I64F64::from_bits(a.bits);
    let y = fixed::types::I64F64::from_bits(b.bits);
    match x.checked_div(y) {
        Some(f) => Some(FixedPoint { bits: f.to_bits() }),
        None => None,
    }
}

/// Relies on `fixed_sqrt::FastSqrt::fast_sqrt` for `FixedI128<U64>` (built on
/// `integer_sqrt`): for a non-negative input the result's raw numerator is
/// the integer square root of the input's raw numerator, shifted left by 32.
#[verifier::external_body]
fn fp_sqrt(a: FixedPoint) -> (r: FixedPoint)
    requires
        a.bits >= 0,
    ensures
        r.bits >= 0,
        r.bits as int % 0x1_0000_0000 == 0,
        is_isqrt(a.bits as int, r.bits as int / 0x1_0000_0000),
{
    let x = fixed::types::I64F64::from_bits(a.bits);
    let s = fixed_sqrt::FastSqrt::fast_sqrt(x);
    FixedPoint { bits: s.to_bits() }
}

/// Relies on `fixed::FixedI128::<U64>::checked_ceil`: for a non-negative
/// input, the value rounded up to the next integer, or `None` when that
/// rounded value overflows.
#[verifier::external_body]
fn fp_checked_ceil(a: FixedPoint) -> (r: Option<FixedPoint>)
    requires
        a.bits >= 0,
    ensures
        r is Some <==> ceil_bits(a.bits as int) * fone() <= i128::MAX as int,
        r matches Some(v) ==> v.bits as int == ceil_bits(a.bits as int) * fone(),
{
    let x = fixed::types::I64F64::from_bits(a.bits);
    match x.checked_ceil() {
        Some(f) => Some(FixedPoint { bits: f.to_bits() }),
        None => None,
    }
}

/// Relies on `fixed::FixedI128::<U64>::to_num::<u64>`: the fractional bits
/// are discarded, rounding towards minus infinity; a non-negative value is
/// below `2^63` and so always fits `u64`.
#[verifier::external_body]
fn fp_to_u64_floor(a: FixedPoint) -> (r: u64)
    requires
        a.bits >= 0,
    ensures
        r as int == floor_bits(a.bits as int),
{
    let x = fixed::types::I64F64::from_bits(a.bits);
    x.to_num::<u64>()
}

/// Converts an integer quantity into fixed point exactly, or reports that it
/// exceeds the representable integer range.
pub fn from_u64(x: u64) -> (r: Result<FixedPoint, CustomError>)
    ensures
        r is Ok <==> x < INT_OVERFLOW,
        r matches Ok(v) ==> v.bits as int == x as int * fone(),
        r matches Err(e) ==> e == CustomError::ArithmeticOverflow,
{
    match fp_checked_from_u64(x) {
        Some(v) => Ok(v),
        None => Err(CustomError::ArithmeticOverflow),
    }
}

/// Exact fixed-point sum of two non-negative values, or `ArithmeticOverflow`
/// when it does not fit.
pub fn add(a: FixedPoint, b: FixedPoint) -> (r: Result<FixedPoint, CustomError>)
    requires
        a.bits >= 0,
        b.bits >= 0,
    ensures
        r is Ok <==> a.bits as int + b.bits as int <= i128::MAX as int,
        r matches Ok(v) ==> v.bits as int == a.bits as int + b.bits as int,
        r matches Err(e) ==> e == CustomError::ArithmeticOverflow,
{
    match fp_checked_add(a, b) {
        Some(v) => Ok(v),
        None => Err(CustomError::ArithmeticOverflow),
    }
}

/// Fixed-point product of two non-negative values, rounded down at `2^-64`
/// precision, or `ArithmeticOverflow` when it does not fit.
pub fn mul(a: FixedPoint, b: FixedPoint) -> (r: Result<FixedPoint, CustomError>)
    requires
        a.bits >= 0,
        b.bits >= 0,
    ensures
        r is Ok <==> mul_bits(a.bits as int, b.bits as int) <= i128::MAX as int,
        r matches Ok(v) ==> v.bits as int == mul_bits(a.bits as int, b.bits as int),
        r matches Err(e) ==> e == CustomError::ArithmeticOverflow,
{
    match fp_checked_mul(a, b) {
        Some(v) => Ok(v),
        None => Err(CustomError::ArithmeticOverflow),
    }
}

/// Fixed-point quotient of two non-negative values, rounded down at `2^-64`
/// precision; `ArithmeticOverflow` when the divisor is zero or the quotient
/// does not fit.
pub fn div(a: FixedPoint, b: FixedPoint) -> (r: Result<FixedPoint, CustomError>)
    requires
        a.bits >= 0,
        b.bits >= 0,
    ensures
        r is Ok <==> (b.bits > 0 && div_bits(a.bits as int, b.bits as int) <= i128::MAX as int),
        r matches Ok(v) ==> v.bits as int == div_bits(a.bits as int, b.bits as int),
        r matches Err(e) ==> e == CustomError::ArithmeticOverflow,
{
    match fp_checked_div(a, b) {
        Some(v) => Ok(v),
        None => Err(CustomError::ArithmeticOverflow),
    }
}

/// Fixed-point square root, rounded down; `InvalidOperand` for a negative
/// operand.
pub fn sqrt(a: FixedPoint) -> (r: Result<FixedPoint, CustomError>)
    ensures
        r is Ok <==> a.bits >= 0,
        r matches Ok(v) ==> {
            &&& v.bits >= 0
            &&& v.bits as int % 0x1_0000_0000 == 0
            &&& is_isqrt(a.bits as int, v.bits as int / 0x1_0000_0000)
        },
        r matches Err(e) ==> e == CustomError::InvalidOperand,
{
    if a.bits < 0 {
        Err(CustomError::InvalidOperand)
    } else {
        Ok(fp_sqrt(a))
    }
}

/// The value rounded up to the next integer, as a `u64`; `InvalidOperand`
/// for a negative operand, `ArithmeticOverflow` when the rounded value does
/// not fit the representation.
pub fn ceil_to_u64(a: FixedPoint) -> (r: Result<u64, CustomError>)
    ensures
        r is Ok <==> (a.bits >= 0 && ceil_bits(a.bits as int) * fone() <= i128::MAX as int),
        r matches Ok(v) ==> v as int == ceil_bits(a.bits as int),
        r matches Err(e) ==> (if a.bits < 0 {
            e == CustomError::InvalidOperand
        } else {
            e == CustomError::ArithmeticOverflow
        }),
{
    if a.bits < 0 {
        return Err(CustomError::InvalidOperand);
    }
    match fp_checked_ceil(a) {
        Some(c) => {
            let v = fp_to_u64_floor(c);
            proof {
                let q = ceil_bits(a.bits as int);
                assert(c.bits as int == q * fone());
                assert((q * fone()) / fone() == q) by {
                    vstd::arithmetic::div_mod::lemma_div_by_multiple(q, fone());
                }
            }
            Ok(v)
        },
        None => Err(CustomError::ArithmeticOverflow),
    }
}

/// The value rounded down to the previous integer, as a `u64`;
/// `InvalidOperand` for a negative operand.
pub fn floor_to_u64(a: FixedPoint) -> (r: Result<u64, CustomError>)
    ensures
        r is Ok <==> a.bits >= 0,
        r matches Ok(v) ==> v as int == floor_bits(a.bits as int),
        r matches Err(e) ==> e == CustomError::InvalidOperand,
{
    if a.bits < 0 {
        return Err(CustomError::InvalidOperand);
    }
    Ok(fp_to_u64_floor(a))
}

/// The integer square root of `n`, defined by counting up: the largest
/// integer whose square does not exceed `n` (and `0` for negative `n`).
pub open spec fn isqrt(n: int) -> int
    decreases n,
{
    if n <= 0 {
        0
    } else if (isqrt(n - 1) + 1) * (isqrt(n - 1) + 1) <= n {
        isqrt(n - 1) + 1
    } else {
        isqrt(n - 1)
    }
}

/// `isqrt` satisfies the integer-square-root characterization.
pub proof fn lemma_isqrt(n: int)
    requires
        n >= 0,
    ensures
        is_isqrt(n, isqrt(n)),
    decreases n,
{
    if n == 0 {
    } else {
        lemma_isqrt(n - 1);
        let r = isqrt(n - 1);
        if (r + 1) * (r + 1) <= n {
            assert(n - 1 < (r + 1) * (r + 1));
            assert(n < (r + 2) * (r + 2)) by (nonlinear_arith)
                requires
                    r >= 0,
                    n <= (r + 1) * (r + 1),
            ;
        }
    }
}

/// Only one integer satisfies the integer-square-root characterization.
pub proof fn lemma_isqrt_unique(n: int, r: int)
    requires
        n >= 0,
        is_isqrt(n, r),
    ensures
        r == isqrt(n),
{
    lemma_isqrt(n);
    let s = isqrt(n);
    assert(r == s) by (nonlinear_arith)
        requires
            r >= 0,
            s >= 0,
            r * r <= n,
            n < (r + 1) * (r + 1),
            s * s <= n,
            n < (s + 1) * (s + 1),
    ;
}

/// Dividing numerator and denominator by a common positive factor leaves a
/// quotient unchanged.
pub proof fn lemma_div_cancel_common(x: int, y: int, k: int)
    requires
        x >= 0,
        y > 0,
        k > 0,
    ensures
        (x * k) / (y * k) == x / y,
{
    vstd::arithmetic::mul::lemma_mul_nonnegative(x, k);
    vstd::arithmetic::div_mod::lemma_div_denominator(x * k, k, y);
    vstd::arithmetic::div_mod::lemma_div_by_multiple(x, k);
    vstd::arithmetic::mul::lemma_mul_is_commutative(y, k);
}

/// Discarding the fractional bits of an already-divided fixed-point value
/// floors the underlying exact quotient.
pub proof fn lemma_floor_after_div(x: int, d: int)
    requires
        x >= 0,
        d > 0,
    ensures
        ((x * fone()) / d) / fone() == x / d,
{
    vstd::arithmetic::mul::lemma_mul_nonnegative(x, fone());
    vstd::arithmetic::div_mod::lemma_div_denominator(x * fone(), d, fone());
    lemma_div_cancel_common(x, d, fone());
}

/// Rounding an already-divided fixed-point value up to the next integer
/// yields the ceiling of the underlying exact quotient, as long as the
/// divisor is below the fixed-point scale.
pub proof fn lemma_ceil_after_div(x: int, d: int)
    requires
        x >= 0,
        0 < d < fone(),
    ensures
        ceil_bits((x * fone()) / d) == (x + d - 1) / d,
{
    let q = x / d;
    let rem = x % d;
    vstd::arithmetic::div_mod::lemma_fundamental_div_mod(x, d);
    vstd::arithmetic::div_mod::lemma_mod_bound(x, d);
    let t = (rem * fone()) / d;
    let rt = (rem * fone()) % d;
    vstd::arithmetic::mul::lemma_mul_nonnegative(rem, fone());
    vstd::arithmetic::div_mod::lemma_fundamental_div_mod(rem * fone(), d);
    vstd::arithmetic::div_mod::lemma_mod_bound(rem * fone(), d);
    vstd::arithmetic::div_mod::lemma_div_pos_is_pos(rem * fone(), d);
    assert(x * fone() == (q * fone() + t) * d + rt) by (nonlinear_arith)
        requires
            x == d * q + rem,
            rem * fone() == d * t + rt,
    ;
    vstd::arithmetic::div_mod::lemma_fundamental_div_mod_converse_div(
        x * fone(), d, q * fone() + t, rt,
    );
    assert((x * fone()) / d == q * fone() + t);
    if rem == 0 {
        assert(t == 0) by {
            vstd::arithmetic::div_mod::lemma_div_of0(d);
        }
        assert(ceil_bits(q * fone()) == q) by {
            assert(q * fone() + (fone() - 1) == fone() * q + (fone() - 1)) by (nonlinear_arith);
            vstd::arithmetic::div_mod::lemma_div_multiples_vanish_fancy(q, fone() - 1, fone());
        }
        assert((x + d - 1) / d == q) by {
            assert(x + d - 1 == d * q + (d - 1));
            vstd::arithmetic::div_mod::lemma_div_multiples_vanish_fancy(q, d - 1, d);
        }
    } else {
        // one unit of the remainder contributes at least one fractional step
        assert(d <= rem * fone()) by (nonlinear_arith)
            requires
                rem >= 1,
                d < fone(),
        ;
        assert(t >= 1) by {
            vstd::arithmetic::div_mod::lemma_div_by_self(d);
            vstd::arithmetic::div_mod::lemma_div_is_ordered(d, rem * fone(), d);
        }
        assert(t < fone()) by (nonlinear_arith)
            requires
                d * t + rt == rem * fone(),
                rt >= 0,
                rem < d,
                d > 0,
        ;
        assert(ceil_bits(q * fone() + t) == q + 1) by {
            assert(q * fone() + t + (fone() - 1) == fone() * (q + 1) + (t - 1)) by (nonlinear_arith);
            vstd::arithmetic::div_mod::lemma_div_multiples_vanish_fancy(q + 1, t - 1, fone());
        }
        assert((x + d - 1) / d == q + 1) by {
            assert(x + d - 1 == d * (q + 1) + (rem - 1)) by (nonlinear_arith)
                requires
                    x == d * q + rem,
            ;
            vstd::arithmetic::div_mod::lemma_div_multiples_vanish_fancy(q + 1, rem - 1, d);
        }
    }
}

/// The product of two integers lifted to fixed point is the lifted product:
/// the multiplication of two whole-valued operands loses nothing.
pub proof fn lemma_mul_bits_ints(x: int, y: int)
    requires
        x >= 0,
        y >= 0,
    ensures
        mul_bits(x * fone(), y * fone()) == (x * y) * fone(),
{
    assert(x * fone() * (y * fone()) == ((x * y) * fone()) * fone()) by (nonlinear_arith);
    vstd::arithmetic::mul::lemma_mul_nonnegative(x, y);
    vstd::arithmetic::mul::lemma_mul_nonnegative(x * y, fone());
    vstd::arithmetic::div_mod::lemma_div_by_multiple((x * y) * fone(), fone());
}

/// A whole-valued scaled dividend divided by a positive whole-valued divisor
/// always fits the representation, and the division cancels the common
/// scale.
pub proof fn lemma_scaled_div_fits(x: int, y: int, d: int)
    requires
        x >= 0,
        y >= 0,
        d > 0,
        x * y < INT_OVERFLOW,
    ensures
        div_bits(x * y * fone(), d * fone()) == (x * y * fone()) / d,
        (x * y * fone()) / d <= i128::MAX,
        div_bits(x * y * fone(), d * fone()) <= i128::MAX,
{
    vstd::arithmetic::mul::lemma_mul_nonnegative(x, y);
    vstd::arithmetic::mul::lemma_mul_nonnegative(x * y, fone());
    lemma_div_cancel_common(x * y * fone(), d, fone());
    vstd::arithmetic::div_mod::lemma_div_nonincreasing(x * y * fone(), d);
    assert(x * y * fone() <= (INT_OVERFLOW - 1) * fone()) by (nonlinear_arith)
        requires
            0 <= x * y < INT_OVERFLOW,
    ;
}

/// An integer square root taken at fixed-point scale, shifted back down,
/// is the integer square root of the unscaled integer.
pub proof fn lemma_isqrt_shift(n: int, t: int)
    requires
        n >= 0,
        is_isqrt(n * fone(), t),
    ensures
        is_isqrt(n, t / 0x1_0000_0000),
{
    let k = t / 0x1_0000_0000;
    vstd::arithmetic::div_mod::lemma_fundamental_div_mod(t, 0x1_0000_0000);
    vstd::arithmetic::div_mod::lemma_mod_bound(t, 0x1_0000_0000);
    vstd::arithmetic::div_mod::lemma_div_pos_is_pos(t, 0x1_0000_0000);
    assert(k * k <= n && n < (k + 1) * (k + 1)) by (nonlinear_arith)
        requires
            n >= 0,
            t >= 0,
            k >= 0,
            t * t <= n * fone(),
            n * fone() < (t + 1) * (t + 1),
            k * 0x1_0000_0000 <= t,
            t < (k + 1) * 0x1_0000_0000,
            fone() == 0x1_0000_0000 * 0x1_0000_0000,
    ;
}

} // verus!
