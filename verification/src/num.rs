//! Fixed-point arithmetic helpers shared by the scale and stack subsystems.
//!
//! All coordinates and data values in this crate are `i64` values counted in
//! millionths of a unit ([`SCALE`] subunits per unit).  Division rounds
//! toward zero ([`div_trunc`]), and every computed coordinate is clipped to
//! [`COORD_LIMIT`] so that scale evaluation is total.

use vstd::prelude::*;

verus! {

/// Number of fixed-point subunits per chart unit.
pub const SCALE: i64 = 1_000_000;

/// Largest magnitude accepted for a single data value (10^8 units).
pub const VALUE_LIMIT: i64 = 100_000_000_000_000;

/// Largest number of data rows accepted by one compile pass.
pub const MAX_ROWS: usize = 10_000;

/// Largest magnitude accepted for a pixel coordinate handed to a scale
/// (10^9 pixels, in subunits).
pub const PIXEL_LIMIT: i64 = 1_000_000_000_000_000;

/// Largest magnitude accepted for a scale range bound (pixel space).
pub const RANGE_LIMIT: i64 = 4_000_000_000_000_000;

/// Largest magnitude accepted for a scale domain bound.
pub const DOMAIN_LIMIT: i64 = 4_000_000_000_000_000_000;

/// Every coordinate computed by a scale is clipped to this magnitude, so
/// scale evaluation is total even on wildly out-of-domain inputs.
pub const COORD_LIMIT: i64 = 4_500_000_000_000_000_000;

/// Largest magnitude accepted for a tick position handed to the axis
/// generator (clipped scale output plus half a band always fits).
pub const AXIS_POS_LIMIT: i64 = 7_000_000_000_000_000_000;

/// Absolute value.
pub open spec fn abs_val(x: int) -> int {
    if x < 0 {
        -x
    } else {
        x
    }
}

/// Truncating (round toward zero) division: the rounding used throughout
/// this crate.  Unspecified sign conventions of `/` on negative operands are
/// avoided by dividing magnitudes and reapplying the sign.
pub open spec fn div_trunc(a: int, b: int) -> int {
    let q = abs_val(a) / abs_val(b);
    if (a < 0) <==> (b < 0) {
        q
    } else {
        -q
    }
}

/// Division rounding toward positive infinity, for a positive divisor.
pub open spec fn div_ceil(a: int, b: int) -> int {
    if a % b == 0 {
        a / b
    } else {
        a / b + 1
    }
}

/// Clip a coordinate to `[-COORD_LIMIT, COORD_LIMIT]`.
pub open spec fn clip(x: int) -> int {
    if x > COORD_LIMIT as int {
        COORD_LIMIT as int
    } else if x < -(COORD_LIMIT as int) {
        -(COORD_LIMIT as int)
    } else {
        x
    }
}

/// Truncating division on wide intermediates.
pub(crate) fn div_trunc_i128(a: i128, b: i128) -> (q: i128)
    requires
        b != 0,
        a != i128::MIN,
        b != i128::MIN,
    ensures
        q == div_trunc(a as int, b as int),
        abs_val(q as int) <= abs_val(a as int),
{
    let ua: u128 = if a >= 0 {
        a as u128
    } else {
        (-a) as u128
    };
    let ub: u128 = if b >= 0 {
        b as u128
    } else {
        (-b) as u128
    };
    let uq: u128 = ua / ub;
    proof {
        assert(ua == abs_val(a as int));
        assert(ub == abs_val(b as int));
        assert(uq <= ua) by (nonlinear_arith)
            requires
                ub >= 1,
                uq == ua / ub,
        ;
    }
    if (a < 0) == (b < 0) {
        uq as i128
    } else {
        -(uq as i128)
    }
}

/// Clip a wide intermediate back to a coordinate.
pub(crate) fn clip_i128(x: i128) -> (r: i64)
    ensures
        r == clip(x as int),
{
    if x > COORD_LIMIT as i128 {
        COORD_LIMIT
    } else if x < -(COORD_LIMIT as i128) {
        -COORD_LIMIT
    } else {
        x as i64
    }
}

/// Division rounding toward positive infinity on wide intermediates.
pub(crate) fn div_ceil_i128(a: i128, b: i128) -> (q: i128)
    requires
        0 < b,
        abs_val(a as int) < i128::MAX - b,
    ensures
        q == div_ceil(a as int, b as int),
{
    if a >= 0 {
        let ua: u128 = a as u128;
        let ub: u128 = b as u128;
        let uq: u128 = (ua + ub - 1) / ub;
        proof {
            assert(uq == div_ceil(a as int, b as int)) by (nonlinear_arith)
                requires
                    ub >= 1,
                    ua == a as int,
                    ub == b as int,
                    a >= 0,
                    uq == (ua + ub - 1) / (ub as int),
            ;
            assert(uq <= ua + ub);
        }
        uq as i128
    } else {
        let ua: u128 = (-a) as u128;
        let ub: u128 = b as u128;
        let uq: u128 = ua / ub;
        proof {
            assert(uq <= ua) by (nonlinear_arith)
                requires
                    ub >= 1,
                    uq == ua / ub,
            ;
            assert(-(uq as int) == div_ceil(a as int, b as int)) by (nonlinear_arith)
                requires
                    ub >= 1,
                    ua == -(a as int),
                    ub == b as int,
                    a < 0,
                    uq == ua / ub,
            ;
        }
        -(uq as i128)
    }
}

/// What truncating division leaves over.
pub open spec fn trunc_rem(a: int, b: int) -> int {
    a - div_trunc(a, b) * b
}

/// Truncating division decomposes its dividend exactly: the remainder is
/// smaller than the divisor and shares the dividend's sign.
pub proof fn lemma_div_trunc_decomposition(a: int, b: int)
    requires
        b != 0,
    ensures
        a == div_trunc(a, b) * b + trunc_rem(a, b),
        abs_val(trunc_rem(a, b)) < abs_val(b),
        a >= 0 ==> trunc_rem(a, b) >= 0,
        a <= 0 ==> trunc_rem(a, b) <= 0,
{
    let ua = abs_val(a);
    let ub = abs_val(b);
    let uq = ua / ub;
    let r = ua % ub;
    assert(uq * ub == ua - r) by {
        vstd::arithmetic::div_mod::lemma_fundamental_div_mod(ua, ub);
        assert(ub * uq == uq * ub) by (nonlinear_arith);
    }
    assert(0 <= r < ub) by {
        vstd::arithmetic::div_mod::lemma_mod_division_less_than_divisor(ua, ub);
    }
    let q = div_trunc(a, b);
    if b > 0 {
        if a >= 0 {
            assert(q * b == ua - r) by (nonlinear_arith)
                requires
                    uq * ub == ua - r,
                    q == uq,
                    b == ub,
            ;
        } else {
            assert(q * b == r - ua) by (nonlinear_arith)
                requires
                    uq * ub == ua - r,
                    q == -uq,
                    b == ub,
            ;
        }
    } else {
        if a >= 0 {
            assert(q * b == ua - r) by (nonlinear_arith)
                requires
                    uq * ub == ua - r,
                    q == -uq,
                    b == -ub,
            ;
        } else {
            assert(q * b == r - ua) by (nonlinear_arith)
                requires
                    uq * ub == ua - r,
                    q == uq,
                    b == -ub,
            ;
        }
    }
}

/// A truncated quotient is bounded by any bound on the exact quotient:
/// if `|a| <= c * |b|` then `|a / b| <= c`.
pub proof fn lemma_div_trunc_bounded(a: int, b: int, c: int)
    requires
        b != 0,
        c >= 0,
        abs_val(a) <= c * abs_val(b),
    ensures
        abs_val(div_trunc(a, b)) <= c,
{
    let ua = abs_val(a);
    let ub = abs_val(b);
    vstd::arithmetic::div_mod::lemma_div_is_ordered(ua, c * ub, ub);
    vstd::arithmetic::div_mod::lemma_div_multiples_vanish(c, ub);
    assert(ub * c == c * ub) by (nonlinear_arith);
}

/// Powers of ten.
pub open spec fn pow10(k: int) -> int
    decreases k,
{
    if k <= 0 {
        1
    } else {
        10 * pow10(k - 1)
    }
}

pub proof fn lemma_pow10_pos(k: int)
    ensures
        pow10(k) >= 1,
    decreases k,
{
    if k > 0 {
        lemma_pow10_pos(k - 1);
    }
}

pub proof fn lemma_pow10_vals()
    ensures
        pow10(0) == 1,
        pow10(1) == 10,
        pow10(2) == 100,
        pow10(3) == 1000,
        pow10(4) == 10000,
        pow10(5) == 100000,
        pow10(6) == 1000000,
{
    assert(pow10(0) == 1);
    assert(pow10(1) == 10);
    assert(pow10(2) == 100);
    assert(pow10(3) == 1000);
    assert(pow10(4) == 10000);
    assert(pow10(5) == 100000);
    assert(pow10(6) == 1000000);
}

pub proof fn lemma_pow10_mul(a: int, b: int)
    requires
        a >= 0,
        b >= 0,
    ensures
        pow10(a) * pow10(b) == pow10(a + b),
    decreases a,
{
    if a == 0 {
        assert(pow10(0) * pow10(b) == pow10(b));
    } else {
        lemma_pow10_mul(a - 1, b);
        assert(pow10(a) == 10 * pow10(a - 1));
        assert(pow10(a + b) == 10 * pow10(a - 1 + b));
        assert((10 * pow10(a - 1)) * pow10(b) == 10 * (pow10(a - 1) * pow10(b)))
            by (nonlinear_arith);
    }
}

} // verus!
