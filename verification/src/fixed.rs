//! Q16 fixed-point sample arithmetic.
//!
//! A sample is an `i64` holding a signal value scaled by `UNIT` (2^16); a gain
//! or filter coefficient is likewise a Q16 value, usually in `[0, UNIT]`.
//! State the engine keeps between blocks (delay contents, filter memories)
//! always stays within `[-SAMPLE_LIMIT, SAMPLE_LIMIT]`; transient frame values
//! may grow up to a factor of the channel count beyond that, which
//! `FRAME_LIMIT` leaves room for without `i64` overflow.

use vstd::prelude::*;

verus! {

/// One full-scale unit in Q16 fixed point.
pub const UNIT: i64 = 65536;

/// Largest magnitude any value persisted between blocks may take.
pub const SAMPLE_LIMIT: i64 = 0x4_0000_0000_0000;

/// Largest magnitude a transient frame value may take; the mixing transforms
/// on at most 64 channels keep sums of such values inside `i64`.
pub const FRAME_LIMIT: i64 = 0x100_0000_0000_0000;

/// Largest gain the engine ever multiplies by (4.0 in Q16).
pub const GAIN_LIMIT: i64 = 262144;

/// Saturate to the range kept by persisted state.
pub open spec fn clip_s(x: int) -> int {
    if x > SAMPLE_LIMIT as int {
        SAMPLE_LIMIT as int
    } else if x < -(SAMPLE_LIMIT as int) {
        -(SAMPLE_LIMIT as int)
    } else {
        x
    }
}

/// Division truncated toward zero, the rounding every scaling step uses.
pub open spec fn tdiv(a: int, d: int) -> int
    recommends
        d > 0,
{
    if a >= 0 {
        a / d
    } else {
        -((-a) / d)
    }
}

/// Multiply a sample by a Q16 factor, truncating toward zero.
pub open spec fn qmul(a: int, g: int) -> int {
    tdiv(a * g, UNIT as int)
}

/// One-pole low-pass update: blend the state `y` toward the input `x` by the
/// Q16 coefficient `c`, then saturate into the persisted range.
pub open spec fn lp_step(y: int, x: int, c: int) -> int {
    clip_s(qmul(y, UNIT - c) + qmul(x, c))
}

/// Saturate a sample into the persisted range.
pub fn clip(x: i64) -> (r: i64)
    ensures
        r == clip_s(x as int),
{
    if x > SAMPLE_LIMIT {
        SAMPLE_LIMIT
    } else if x < -SAMPLE_LIMIT {
        -SAMPLE_LIMIT
    } else {
        x
    }
}

/// Divide a non-negative `u128` by `UNIT`, for building truncating scalers.
fn div_unit_u128(a: u128) -> (r: u128)
    ensures
        r == a as int / UNIT as int,
{
    a / (UNIT as u128)
}

/// Multiply a sample by a non-negative Q16 gain, truncating toward zero.
pub fn mul_gain(a: i64, g: i64) -> (r: i64)
    requires
        -FRAME_LIMIT <= a <= FRAME_LIMIT,
        0 <= g <= GAIN_LIMIT,
    ensures
        r == qmul(a as int, g as int),
        -4 * FRAME_LIMIT <= r <= 4 * FRAME_LIMIT,
        a >= 0 ==> 0 <= r <= a * g / (UNIT as int),
        a < 0 ==> a * g / (UNIT as int) <= r <= 0,
{
    let mag: i64 = if a >= 0 {
        a
    } else {
        -a
    };
    proof {
        assert(mag * g <= FRAME_LIMIT * GAIN_LIMIT) by (nonlinear_arith)
            requires
                0 <= mag <= FRAME_LIMIT,
                0 <= g <= GAIN_LIMIT,
        ;
    }
    let wide: u128 = (mag as u128) * (g as u128);
    let q: u128 = div_unit_u128(wide);
    proof {
        assert(q * UNIT <= mag * g) by (nonlinear_arith)
            requires
                q == (mag * g) / (UNIT as int),
                mag * g >= 0,
                UNIT == 65536,
        ;
    }
    let small: i64 = q as i64;
    if a >= 0 {
        small
    } else {
        proof {
            assert(-(mag as int) * g == -(mag * g)) by (nonlinear_arith);
            assert(tdiv(a * g, UNIT as int) == -small);
        }
        -small
    }
}

/// One-pole low-pass update over samples; the result is saturated, so the
/// filter memory always stays in the persisted range.
pub fn one_pole(y: i64, x: i64, c: i64) -> (r: i64)
    requires
        -SAMPLE_LIMIT <= y <= SAMPLE_LIMIT,
        -FRAME_LIMIT <= x <= FRAME_LIMIT,
        0 <= c <= UNIT,
    ensures
        r == lp_step(y as int, x as int, c as int),
        -SAMPLE_LIMIT <= r <= SAMPLE_LIMIT,
{
    let a = mul_gain(y, UNIT - c);
    let b = mul_gain(x, c);
    clip(a + b)
}

/// A gain of at most one never grows a sample's magnitude.
pub proof fn lemma_gain_bounded(a: int, g: int)
    requires
        0 <= g <= UNIT,
    ensures
        a >= 0 ==> 0 <= qmul(a, g) <= a,
        a < 0 ==> a <= qmul(a, g) <= 0,
{
    if a >= 0 {
        assert(a * g <= a * UNIT) by (nonlinear_arith)
            requires
                a >= 0,
                0 <= g <= UNIT,
        ;
        assert(a * g >= 0) by (nonlinear_arith)
            requires
                a >= 0,
                g >= 0,
        ;
        assert((a * g) / (UNIT as int) <= a) by (nonlinear_arith)
            requires
                0 <= a * g,
                a * g <= a * UNIT,
                UNIT == 65536,
        ;
    } else {
        assert((-a) * g <= (-a) * UNIT) by (nonlinear_arith)
            requires
                a < 0,
                0 <= g <= UNIT,
        ;
        assert((-a) * g >= 0) by (nonlinear_arith)
            requires
                a < 0,
                g >= 0,
        ;
        assert(((-a) * g) / (UNIT as int) <= -a) by (nonlinear_arith)
            requires
                0 <= (-a) * g,
                (-a) * g <= (-a) * UNIT,
                UNIT == 65536,
        ;
        assert(-a * g == -(a * g)) by (nonlinear_arith);
    }
}

/// The integer square root, as a mathematical function.
pub open spec fn isqrt_spec(x: nat) -> nat
    decreases x,
{
    if x == 0 {
        0
    } else {
        let r = isqrt_spec((x - 1) as nat);
        if (r + 1) * (r + 1) <= x {
            (r + 1) as nat
        } else {
            r
        }
    }
}

/// The integer square root brackets its argument.
pub proof fn lemma_isqrt_spec_bounds(x: nat)
    ensures
        isqrt_spec(x) * isqrt_spec(x) <= x,
        x < (isqrt_spec(x) + 1) * (isqrt_spec(x) + 1),
    decreases x,
{
    if x == 0 {
        assert(isqrt_spec(x) == 0);
        assert(isqrt_spec(x) * isqrt_spec(x) == 0) by (nonlinear_arith)
            requires
                isqrt_spec(x) == 0,
        ;
        assert((isqrt_spec(x) + 1) * (isqrt_spec(x) + 1) == 1) by (nonlinear_arith)
            requires
                isqrt_spec(x) == 0,
        ;
    } else {
        lemma_isqrt_spec_bounds((x - 1) as nat);
        let r = isqrt_spec((x - 1) as nat);
        if (r + 1) * (r + 1) <= x {
            assert(isqrt_spec(x) == r + 1);
            assert(isqrt_spec(x) * isqrt_spec(x) == (r + 1) * (r + 1)) by (nonlinear_arith)
                requires
                    isqrt_spec(x) == r + 1,
            ;
            assert(x < (r + 2) * (r + 2)) by (nonlinear_arith)
                requires
                    x - 1 < (r + 1) * (r + 1),
            ;
            assert((isqrt_spec(x) + 1) * (isqrt_spec(x) + 1) == (r + 2) * (r + 2))
                by (nonlinear_arith)
                requires
                    isqrt_spec(x) == r + 1,
            ;
        } else {
            assert(isqrt_spec(x) == r);
            assert(isqrt_spec(x) * isqrt_spec(x) == r * r) by (nonlinear_arith)
                requires
                    isqrt_spec(x) == r,
            ;
            assert((isqrt_spec(x) + 1) * (isqrt_spec(x) + 1) == (r + 1) * (r + 1))
                by (nonlinear_arith)
                requires
                    isqrt_spec(x) == r,
            ;
        }
    }
}

/// The integer square root: the largest `r` with `r * r <= x`.
pub fn isqrt64(x: u64) -> (r: u64)
    ensures
        r * r <= x,
        (r + 1) * (r + 1) > x,
        r == isqrt_spec(x as nat),
{
    let r = isqrt64_inner(x);
    proof {
        lemma_isqrt_spec_bounds(x as nat);
        let s = isqrt_spec(x as nat);
        assert(r == s) by (nonlinear_arith)
            requires
                r * r <= x,
                x < (r + 1) * (r + 1),
                s * s <= x,
                x < (s + 1) * (s + 1),
                r >= 0,
                s >= 0,
        ;
    }
    r
}

/// Binary search for the integer square root.
fn isqrt64_inner(x: u64) -> (r: u64)
    ensures
        r * r <= x,
        (r + 1) * (r + 1) > x,
{
    let mut lo: u64 = 0;
    let mut hi: u64 = 4294967296;
    proof {
        assert(hi * hi > x) by (nonlinear_arith)
            requires
                hi == 4294967296,
                x <= 0xffff_ffff_ffff_ffff,
        ;
    }
    while lo + 1 < hi
        invariant
            lo < hi <= 4294967296,
            lo * lo <= x,
            hi * hi > x,
        decreases hi - lo,
    {
        let mid = lo + (hi - lo) / 2;
        proof {
            assert(lo < mid < hi);
            assert(mid * mid <= 4294967296 * 4294967296) by (nonlinear_arith)
                requires
                    0 <= mid <= 4294967296,
            ;
        }
        if mid <= x / mid {
            proof {
                assert(mid * mid <= x) by (nonlinear_arith)
                    requires
                        mid >= 1,
                        mid <= x as int / mid as int,
                ;
            }
            lo = mid;
        } else {
            proof {
                vstd::arithmetic::div_mod::lemma_fundamental_div_mod(x as int, mid as int);
                assert(mid * mid > x) by (nonlinear_arith)
                    requires
                        mid >= 1,
                        mid > x as int / mid as int,
                        x as int == mid * (x as int / mid as int) + x as int % (mid as int),
                        x as int % (mid as int) < mid,
                ;
            }
            hi = mid;
        }
    }
    lo
}

/// A gain strictly below one strictly shrinks every non-zero sample, the fact
/// behind the decay of a feedback tail: repeated scaling reaches zero.
pub proof fn lemma_gain_contracts(a: int, g: int)
    requires
        0 <= g < UNIT,
    ensures
        a > 0 ==> 0 <= qmul(a, g) < a,
        a < 0 ==> a < qmul(a, g) <= 0,
        a == 0 ==> qmul(a, g) == 0,
{
    if a > 0 {
        assert(a * g < a * UNIT) by (nonlinear_arith)
            requires
                a > 0,
                0 <= g < UNIT,
        ;
        assert(a * g >= 0) by (nonlinear_arith)
            requires
                a > 0,
                g >= 0,
        ;
        assert((a * g) / (UNIT as int) < a) by (nonlinear_arith)
            requires
                0 <= a * g,
                a * g < a * UNIT,
                UNIT == 65536,
        ;
        assert((a * g) / (UNIT as int) >= 0);
    } else if a < 0 {
        assert((-a) * g < (-a) * UNIT) by (nonlinear_arith)
            requires
                a < 0,
                0 <= g < UNIT,
        ;
        assert((-a) * g >= 0) by (nonlinear_arith)
            requires
                a < 0,
                g >= 0,
        ;
        assert(((-a) * g) / (UNIT as int) < -a) by (nonlinear_arith)
            requires
                0 <= (-a) * g,
                (-a) * g < (-a) * UNIT,
                UNIT == 65536,
        ;
        assert(-a * g == -(a * g)) by (nonlinear_arith);
    } else {
        assert(a * g == 0) by (nonlinear_arith)
            requires
                a == 0,
        ;
    }
}

} // verus!
