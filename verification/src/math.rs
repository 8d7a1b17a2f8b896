//! Reusable mathematical helpers for the fixed-point world model.
//!
//! A world coordinate is an `i64` counted in milli-pixels: `SCALE` units are
//! one pixel. Distances are compared through their squares, which keeps every
//! collision test exact.

use vstd::prelude::*;

verus! {

/// Number of fixed-point units in one pixel.
pub const SCALE: i64 = 1000;

/// Largest magnitude, in milli-pixels, accepted for any coordinate or
/// movement vector arriving over the wire.
pub const FX_ABS_MAX: i64 = 20_000_000;

/// Largest magnitude a bullet coordinate can reach before the tick that
/// removes it: the map, plus the largest fire offset, plus one advance.
pub const BULLET_POS_MAX: i64 = 400_000_000;

/// The squared distance between two points, as a mathematical integer.
pub open spec fn spec_dist_sq(x0: int, y0: int, x1: int, y1: int) -> int {
    (x0 - x1) * (x0 - x1) + (y0 - y1) * (y0 - y1)
}

/// The squared Euclidean distance between `(x0, y0)` and `(x1, y1)`.
///
/// Comparing `dist_sq_between(..) < r * r` decides `distance < r` exactly,
/// with no rounding at all.
pub fn dist_sq_between(x0: i64, y0: i64, x1: i64, y1: i64) -> (r: i64)
    requires
        -BULLET_POS_MAX <= x0 <= BULLET_POS_MAX,
        -BULLET_POS_MAX <= y0 <= BULLET_POS_MAX,
        -BULLET_POS_MAX <= x1 <= BULLET_POS_MAX,
        -BULLET_POS_MAX <= y1 <= BULLET_POS_MAX,
    ensures
        r == spec_dist_sq(x0 as int, y0 as int, x1 as int, y1 as int),
        r >= 0,
{
    let dx = x0 - x1;
    let dy = y0 - y1;
    proof {
        assert(dx * dx <= 800_000_000i64 * 800_000_000i64 && dx * dx >= 0) by (nonlinear_arith)
            requires -800_000_000 <= dx <= 800_000_000;
        assert(dy * dy <= 800_000_000i64 * 800_000_000i64 && dy * dy >= 0) by (nonlinear_arith)
            requires -800_000_000 <= dy <= 800_000_000;
    }
    dx * dx + dy * dy
}

/// `v` clamped to the closed interval `[lo, hi]`.
pub open spec fn spec_clamp(v: int, lo: int, hi: int) -> int {
    if v < lo {
        lo
    } else if v > hi {
        hi
    } else {
        v
    }
}

/// Clamp `v` into `[lo, hi]`.
pub fn clamp(v: i64, lo: i64, hi: i64) -> (r: i64)
    requires
        lo <= hi,
    ensures
        r == spec_clamp(v as int, lo as int, hi as int),
        lo <= r <= hi,
{
    if v < lo {
        lo
    } else if v > hi {
        hi
    } else {
        v
    }
}

} // verus!
