//! Fixed-point scalars.
//!
//! Probabilities, rewards and values are `i64` numbers in fixed point: a raw
//! value `x` stands for `x / SCALE`. Products are truncated toward zero and
//! every operation saturates at the bounds of `i64`.
use vstd::prelude::*;

verus! {

/// Raw units in one whole: `SCALE` stands for 1, `SCALE / 10` for 0.1.
pub const SCALE: i64 = 1_000_000;

/// `x` brought into the range of `i64`.
pub open spec fn clamp(x: int) -> i64 {
    if x < i64::MIN {
        i64::MIN
    } else if x > i64::MAX {
        i64::MAX
    } else {
        x as i64
    }
}

/// Integer division rounded toward zero, for a positive divisor.
pub open spec fn trunc_div(x: int, d: int) -> int {
    if x >= 0 {
        x / d
    } else {
        -((-x) / d)
    }
}

/// Saturating fixed-point sum.
pub open spec fn add_spec(a: i64, b: i64) -> i64 {
    clamp(a + b)
}

/// Saturating fixed-point product, truncated toward zero.
pub open spec fn mul_spec(a: i64, b: i64) -> i64 {
    clamp(trunc_div(a * b, SCALE as int))
}

/// Distance between two fixed-point numbers.
pub open spec fn dist(a: i64, b: i64) -> int {
    if a >= b {
        a - b
    } else {
        b - a
    }
}

pub fn fx_add(a: i64, b: i64) -> (r: i64)
    ensures
        r == add_spec(a, b),
{
    let s: i128 = a as i128 + b as i128;
    if s > i64::MAX as i128 {
        i64::MAX
    } else if s < i64::MIN as i128 {
        i64::MIN
    } else {
        s as i64
    }
}

pub fn fx_mul(a: i64, b: i64) -> (r: i64)
    ensures
        r == mul_spec(a, b),
{
    proof {
        assert(a * b <= 0x4000_0000_0000_0000_0000_0000_0000_0000) by (nonlinear_arith)
            requires
                -0x8000_0000_0000_0000 <= a <= 0x7fff_ffff_ffff_ffff,
                -0x8000_0000_0000_0000 <= b <= 0x7fff_ffff_ffff_ffff,
        ;
        assert(-0x4000_0000_0000_0000_0000_0000_0000_0000 <= a * b) by (nonlinear_arith)
            requires
                -0x8000_0000_0000_0000 <= a <= 0x7fff_ffff_ffff_ffff,
                -0x8000_0000_0000_0000 <= b <= 0x7fff_ffff_ffff_ffff,
        ;
    }
    let p: i128 = a as i128 * b as i128;
    let q: i128 = if p >= 0 {
        p / (SCALE as i128)
    } else {
        -((-p) / (SCALE as i128))
    };
    if q > i64::MAX as i128 {
        i64::MAX
    } else if q < i64::MIN as i128 {
        i64::MIN
    } else {
        q as i64
    }
}

/// Distance between two fixed-point numbers, saturated at `i64::MAX`.
pub fn fx_dist(a: i64, b: i64) -> (r: i64)
    ensures
        r == clamp(dist(a, b)),
        r >= 0,
{
    let d: i128 = if a >= b {
        a as i128 - b as i128
    } else {
        b as i128 - a as i128
    };
    if d > i64::MAX as i128 {
        i64::MAX
    } else {
        d as i64
    }
}

/// Multiplying by one (`SCALE`) is exact.
pub proof fn lemma_mul_unit(x: i64)
    ensures
        mul_spec(SCALE, x) == x,
{
    if x >= 0 {
        assert((SCALE as int * x) / (SCALE as int) == x);
    } else {
        assert((-(SCALE as int * x)) / (SCALE as int) == -x);
    }
}

} // verus!
