//! Milli-unit fixed-point arithmetic: the integer square root used for
//! Euclidean distances, saturation to the `u64` range, and the saturating
//! fixed-point power used by the desirability weights.

use vstd::prelude::*;

verus! {

/// Number of milli-units in one unit: all fixed-point quantities in this
/// crate are integers counted in thousandths.
pub const SCALE: u64 = 1000;

/// Clamp an unbounded integer into the `u64` range from above.
pub open spec fn sat64(v: int) -> int {
    if v > u64::MAX as int {
        u64::MAX as int
    } else {
        v
    }
}

/// The integer square root: the largest `r` with `r * r <= x`.
pub open spec fn sqrt_floor(x: int) -> int
    decreases x,
{
    if x <= 0 {
        0
    } else {
        let p = sqrt_floor(x - 1);
        if (p + 1) * (p + 1) <= x {
            p + 1
        } else {
            p
        }
    }
}

/// `sqrt_floor(x)` really is the floor of the square root: its square is at
/// most `x`, and the next square is beyond `x`.
pub proof fn lemma_sqrt_floor_bounds(x: int)
    requires
        x >= 0,
    ensures
        0 <= sqrt_floor(x),
        sqrt_floor(x) * sqrt_floor(x) <= x,
        x < (sqrt_floor(x) + 1) * (sqrt_floor(x) + 1),
    decreases x,
{
    if x == 0 {
    } else {
        lemma_sqrt_floor_bounds(x - 1);
        let p = sqrt_floor(x - 1);
        if (p + 1) * (p + 1) <= x {
            assert((p + 2) * (p + 2) > x) by (nonlinear_arith)
                requires
                    p >= 0,
                    x - 1 < (p + 1) * (p + 1);
        }
    }
}

/// Any `r` whose square brackets `x` is the integer square root of `x`.
pub proof fn lemma_sqrt_floor_unique(x: int, r: int)
    requires
        x >= 0,
        r >= 0,
        r * r <= x,
        x < (r + 1) * (r + 1),
    ensures
        r == sqrt_floor(x),
{
    lemma_sqrt_floor_bounds(x);
    let s = sqrt_floor(x);
    if r < s {
        assert((r + 1) * (r + 1) <= s * s) by (nonlinear_arith)
            requires
                0 <= r,
                r + 1 <= s;
    }
    if s < r {
        assert((s + 1) * (s + 1) <= r * r) by (nonlinear_arith)
            requires
                0 <= s,
                s + 1 <= r;
    }
}

/// Integer square root of a `u64`, by bisection.
pub fn isqrt(x: u64) -> (r: u64)
    ensures
        r == sqrt_floor(x as int),
{
    if x == 0 {
        proof {
            lemma_sqrt_floor_unique(x as int, 0);
        }
        return 0;
    }
    let mut lo: u64 = 0;
    let mut hi: u64 = 4294967296;
    assert(x < hi * hi) by (nonlinear_arith)
        requires
            x <= u64::MAX,
            hi == 4294967296u64;
    while lo + 1 < hi
        invariant
            lo < hi <= 4294967296,
            (lo as int) * (lo as int) <= x as int,
            (x as int) < (hi as int) * (hi as int),
        decreases hi - lo,
    {
        let mid: u64 = lo + (hi - lo) / 2;
        assert((mid as int) * (mid as int) <= u128::MAX as int) by (nonlinear_arith)
            requires
                0 <= mid as int <= 4294967296int;
        if (mid as u128) * (mid as u128) <= x as u128 {
            lo = mid;
        } else {
            hi = mid;
        }
    }
    proof {
        lemma_sqrt_floor_unique(x as int, lo as int);
    }
    lo
}

/// Fixed-point power with saturation: `pow_fixed_spec(x, e)` is `x` (in
/// milli-units) multiplied into itself `e` times, rescaling after every step
/// and clamping to the `u64` range, so `pow_fixed_spec(x, 0) == SCALE`
/// represents one.
pub open spec fn pow_fixed_spec(x: int, e: int) -> int
    decreases e,
{
    if e <= 0 {
        SCALE as int
    } else {
        sat64(pow_fixed_spec(x, e - 1) * x / (SCALE as int))
    }
}

/// The saturating fixed-point power stays a `u64`.
pub proof fn lemma_pow_fixed_spec_range(x: int, e: int)
    requires
        0 <= x <= u64::MAX as int,
    ensures
        0 <= pow_fixed_spec(x, e) <= u64::MAX as int,
    decreases e,
{
    if e <= 0 {
    } else {
        lemma_pow_fixed_spec_range(x, e - 1);
        let p = pow_fixed_spec(x, e - 1);
        assert(p * x >= 0) by (nonlinear_arith)
            requires
                p >= 0,
                x >= 0;
    }
}

/// Fixed-point power of a milli-unit value with a plain integer exponent,
/// saturating at `u64::MAX`.
pub fn pow_fixed(x: u64, e: u32) -> (r: u64)
    ensures
        r == pow_fixed_spec(x as int, e as int),
{
    let mut acc: u64 = SCALE;
    let mut i: u32 = 0;
    while i < e
        invariant
            i <= e,
            acc == pow_fixed_spec(x as int, i as int),
        decreases e - i,
    {
        proof {
            lemma_pow_fixed_spec_range(x as int, i as int);
            assert((acc as int) * (x as int) <= u128::MAX as int) by (nonlinear_arith)
                requires
                    0 <= acc as int <= u64::MAX as int,
                    0 <= x as int <= u64::MAX as int;
        }
        let wide: u128 = (acc as u128) * (x as u128) / (SCALE as u128);
        acc = if wide > u64::MAX as u128 {
            u64::MAX
        } else {
            wide as u64
        };
        i = i + 1;
    }
    acc
}

} // verus!
