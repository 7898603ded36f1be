//! Fixed-point numbers.
//!
//! Every quantity of a problem (coefficients, limits of a box, relaxed
//! values, objective values) is an `i64` that counts units of `1 / SCALE`.
//! The number `1.25` is the integer `1_250_000_000_000`. All comparisons and
//! roundings are exact on this grid.

use vstd::prelude::*;

verus! {

/// Units per whole number.
pub const SCALE: i64 = 1_000_000_000_000;

/// Tolerance, in units: `1e-10`.
pub const EPSILON: i64 = 100;

/// The largest whole number (in units) that is not above `value`.
pub open spec fn floor_of(value: int) -> int {
    (value / (SCALE as int)) * (SCALE as int)
}

/// The part of `value` above its floor, in `0 .. SCALE`.
pub open spec fn fraction_of(value: int) -> int {
    value % (SCALE as int)
}

/// `value` is a whole number.
pub open spec fn is_whole(value: int) -> bool {
    fraction_of(value) == 0
}

/// The smallest whole number (in units) that is not below `value`.
pub open spec fn ceil_of(value: int) -> int {
    if is_whole(value) {
        value
    } else {
        floor_of(value) + SCALE
    }
}

/// `value` lies above its floor by more than the tolerance.
pub open spec fn fractional(value: int) -> bool {
    fraction_of(value) > EPSILON
}

/// `value` is closer to zero than the tolerance.
pub open spec fn negligible(value: int) -> bool {
    -EPSILON < value < EPSILON
}

/// A value and its floor differ by the fraction, and the ceiling of a value
/// that is not whole lies one whole step above the floor.
pub proof fn lemma_floor_ceil(value: int)
    ensures
        value == floor_of(value) + fraction_of(value),
        0 <= fraction_of(value) < SCALE,
        floor_of(value) <= value <= ceil_of(value),
        ceil_of(value) - floor_of(value) == (if is_whole(value) {
            0int
        } else {
            SCALE as int
        }),
        is_whole(floor_of(value)),
        is_whole(ceil_of(value)),
{
    let s = SCALE as int;
    let q = value / s;
    assert(value == s * q + value % s) by (nonlinear_arith)
        requires
            s > 0,
            q == value / s,
    ;
    assert(s * q == q * s) by (nonlinear_arith);
    assert((q * s) % s == 0) by (nonlinear_arith)
        requires
            s > 0,
    ;
    assert(((q + 1) * s) % s == 0) by (nonlinear_arith)
        requires
            s > 0,
    ;
    assert((q + 1) * s == q * s + s) by (nonlinear_arith);
}

/// Between a value that is not whole and its floor or ceiling lies no whole
/// number: a whole `z` is either at most the floor or at least the ceiling.
pub proof fn lemma_no_whole_between(value: int, z: int)
    requires
        is_whole(z),
    ensures
        z <= value ==> z <= floor_of(value),
        z >= value ==> z >= ceil_of(value),
{
    let s = SCALE as int;
    lemma_floor_ceil(value);
    lemma_floor_ceil(z);
    let q = value / s;
    let k = z / s;
    assert(z == k * s);
    if z <= value {
        assert(k <= q) by (nonlinear_arith)
            requires
                s > 0,
                k * s <= value,
                value < q * s + s,
        ;
        assert(k * s <= q * s) by (nonlinear_arith)
            requires
                s > 0,
                k <= q,
        ;
    }
    if z >= value && !is_whole(value) {
        assert(k >= q + 1) by (nonlinear_arith)
            requires
                s > 0,
                k * s >= value,
                value > q * s,
        ;
        assert(k * s >= (q + 1) * s) by (nonlinear_arith)
            requires
                s > 0,
                k >= q + 1,
        ;
        assert((q + 1) * s == q * s + s) by (nonlinear_arith);
    }
}

/// The floor of `value`. The result is wider than `i64` because the floor of
/// a value near `i64::MIN` does not fit there.
pub fn floor(value: i64) -> (r: i128)
    ensures
        r == floor_of(value as int),
{
    let v: i128 = value as i128;
    let s: i128 = SCALE as i128;
    let q: i128 = v / s;
    let m: i128 = v % s;
    if m < 0 {
        (q - 1) * s
    } else {
        q * s
    }
}

/// The ceiling of `value`. The result is wider than `i64` because the ceiling
/// of a value near `i64::MAX` does not fit there.
pub fn ceil(value: i64) -> (r: i128)
    ensures
        r == ceil_of(value as int),
{
    let v: i128 = value as i128;
    let s: i128 = SCALE as i128;
    let q: i128 = v / s;
    let m: i128 = v % s;
    if m > 0 {
        (q + 1) * s
    } else {
        q * s
    }
}

/// Whether `value` is fractional: whether it exceeds its floor by more than
/// the tolerance.
pub fn is_float(value: i64) -> (r: bool)
    ensures
        r == fractional(value as int),
{
    let m: i64 = value % SCALE;
    if m < 0 {
        m + SCALE > EPSILON
    } else {
        m > EPSILON
    }
}

/// Whether `value` is zero within the tolerance.
pub fn is_zero(value: i64) -> (r: bool)
    ensures
        r == negligible(value as int),
{
    -EPSILON < value && value < EPSILON
}

} // verus!
